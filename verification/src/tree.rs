use vstd::prelude::*;
use vstd::set_lib::{lemma_len_subset, lemma_int_range, set_int_range};
use core::marker::PhantomData;
use crate::layout::LayoutData;
use crate::node::{AbstractNode, Node, NodeList, ids, link};
use crate::types::{AbstractDocument, LayoutView, NodeContent, content_fits, is_document_type};

verus! {

/// A request to the document that the tree operations leave for the document to carry
/// out, in the order in which they were made.
pub enum DocumentAction<View> {
    /// Wait until layout no longer reads the tree of the document.
    WaitUntilSafeToModifyDom(AbstractDocument),
    /// Register the elements with an "id" attribute in the subtree of the node.
    RegisterNodesWithId(AbstractNode<View>),
    /// Unregister the elements with an "id" attribute in the subtree of the node.
    UnregisterNodesWithId(AbstractNode<View>),
    /// The content of the document has changed.
    ContentChanged(AbstractDocument),
}

/// The first element of `s`, if any.
pub open spec fn seq_first(s: Seq<int>) -> Option<int> {
    if s.len() == 0 { None } else { Some(s[0]) }
}

/// The last element of `s`, if any.
pub open spec fn seq_last(s: Seq<int>) -> Option<int> {
    if s.len() == 0 { None } else { Some(s[s.len() - 1]) }
}

/// The element before position `k` of `s`, if any.
pub open spec fn prev_in(s: Seq<int>, k: int) -> Option<int> {
    if k == 0 { None } else { Some(s[k - 1]) }
}

/// The element after position `k` of `s`, if any.
pub open spec fn next_in(s: Seq<int>, k: int) -> Option<int> {
    if k + 1 >= s.len() { None } else { Some(s[k + 1]) }
}

/// All the nodes that the script or the layout task can reach, each in its place. A node
/// links to its parent, its first and last child and its two siblings by their places.
///
/// Beside the nodes, the arena keeps two ghost records: the children of each node in
/// order, and the set of the ancestors of each node. The links agree with the first,
/// and the second shows that the nodes form a forest: no node is its own ancestor.
pub struct NodeArena<View> {
    nodes: Vec<Node<View>>,
    kid_seqs: Ghost<Seq<Seq<int>>>,
    anc_sets: Ghost<Seq<Set<int>>>,
    actions: Vec<DocumentAction<View>>,
}

impl<View> NodeArena<View> {
    /// The nodes, each in its place.
    pub closed spec fn nodes(&self) -> Seq<Node<View>> {
        self.nodes@
    }

    /// The children of each node, in order.
    pub closed spec fn kid_lists(&self) -> Seq<Seq<int>> {
        self.kid_seqs@
    }

    /// The ancestors of each node.
    pub closed spec fn anc_lists(&self) -> Seq<Set<int>> {
        self.anc_sets@
    }

    /// The requests left for the documents, oldest first.
    pub closed spec fn pending(&self) -> Seq<DocumentAction<View>> {
        self.actions@
    }

    pub open spec fn len(&self) -> nat {
        self.nodes().len()
    }

    pub open spec fn valid(&self, i: int) -> bool {
        0 <= i < self.len()
    }

    pub open spec fn node_at(&self, i: int) -> Node<View> {
        self.nodes()[i]
    }

    pub open spec fn parent(&self, i: int) -> Option<int> {
        link(self.node_at(i).parent_node)
    }

    pub open spec fn first(&self, i: int) -> Option<int> {
        link(self.node_at(i).first_child)
    }

    pub open spec fn last(&self, i: int) -> Option<int> {
        link(self.node_at(i).last_child)
    }

    pub open spec fn prev(&self, i: int) -> Option<int> {
        link(self.node_at(i).prev_sibling)
    }

    pub open spec fn next(&self, i: int) -> Option<int> {
        link(self.node_at(i).next_sibling)
    }

    /// The children of node `i`, in order.
    pub open spec fn kids(&self, i: int) -> Seq<int> {
        self.kid_lists()[i]
    }

    /// The ancestors of node `i`: its parent, its parent's parent, and so on.
    pub open spec fn anc(&self, i: int) -> Set<int> {
        self.anc_lists()[i]
    }

    /// `x` is `a` or lies below it.
    pub open spec fn in_subtree(&self, a: int, x: int) -> bool {
        x == a || self.anc(x).contains(a)
    }

    /// The `k`-th child of `i` links back to `i` and to its neighbours among the children.
    pub open spec fn kid_wf(&self, i: int, k: int) -> bool {
        let c = self.kids(i)[k];
        &&& self.valid(c)
        &&& self.parent(c) == Some(i)
        &&& self.prev(c) == prev_in(self.kids(i), k)
        &&& self.next(c) == next_in(self.kids(i), k)
    }

    /// `doc` names a document node of the arena.
    pub open spec fn is_document_handle(&self, doc: AbstractDocument) -> bool {
        &&& self.valid(doc.node as int)
        &&& is_document_type(self.node_at(doc.node as int).type_id)
    }

    pub open spec fn node_wf(&self, i: int) -> bool {
        &&& self.node_at(i).wf()
        &&& (self.node_at(i).owner_doc matches Some(d) ==> self.is_document_handle(d))
        &&& (self.parent(i) matches Some(p) ==> self.valid(p))
        &&& self.first(i) == seq_first(self.kids(i))
        &&& self.last(i) == seq_last(self.kids(i))
        &&& self.kids(i).no_duplicates()
        &&& forall|k: int| 0 <= k < self.kids(i).len() ==> #[trigger] self.kid_wf(i, k)
        &&& self.anc(i).finite()
        &&& !self.anc(i).contains(i)
        &&& match self.parent(i) {
            None => {
                &&& self.prev(i) is None
                &&& self.next(i) is None
                &&& self.anc(i) == Set::<int>::empty()
            },
            Some(p) => {
                &&& self.kids(p).contains(i)
                &&& self.anc(i) == self.anc(p).insert(p)
                &&& self.node_at(i).owner_doc is Some
            },
        }
    }

    /// The links of the nodes agree with the ghost records, and the nodes form a forest.
    pub open spec fn wf(&self) -> bool {
        &&& self.len() <= usize::MAX
        &&& self.kid_lists().len() == self.len()
        &&& self.anc_lists().len() == self.len()
        &&& forall|i: int| 0 <= i < self.len() ==> #[trigger] self.node_wf(i)
    }

    /// An arena with no nodes.
    pub fn new() -> (r: Self)
        ensures
            r.wf(),
            r.len() == 0,
            r.pending().len() == 0,
    {
        NodeArena {
            nodes: Vec::new(),
            kid_seqs: Ghost(Seq::empty()),
            anc_sets: Ghost(Seq::empty()),
            actions: Vec::new(),
        }
    }

    /// The number of nodes.
    pub fn num_nodes(&self) -> (r: usize)
        ensures
            r == self.len(),
    {
        self.nodes.len()
    }

    /// The node that `h` names.
    pub fn get(&self, h: AbstractNode<View>) -> (r: &Node<View>)
        requires
            self.valid(h.obj as int),
        ensures
            *r == self.node_at(h.obj as int),
    {
        &self.nodes[h.obj]
    }

    /// `self` differs from `old` only in the nodes that `changed` holds, and in the
    /// children and ancestors of those nodes; it has at least the nodes of `old`.
    pub open spec fn same_outside(&self, old: &Self, changed: Set<int>) -> bool {
        &&& old.len() <= self.len()
        &&& forall|i: int| #![trigger self.node_at(i)] #![trigger self.kids(i)] #![trigger self.anc(i)]
            old.valid(i) && !changed.contains(i) ==> {
                &&& self.node_at(i) == old.node_at(i)
                &&& self.kids(i) == old.kids(i)
                &&& self.anc(i) == old.anc(i)
            }
    }

    /// Takes `node` into the arena, as a node with no links, and names its place.
    pub fn add_node(&mut self, node: Node<View>) -> (h: AbstractNode<View>)
        requires
            old(self).wf(),
            node.wf(),
            node.owner_doc matches Some(d) ==> old(self).is_document_handle(d),
            old(self).len() < usize::MAX,
        ensures
            final(self).wf(),
            h.obj == old(self).len(),
            final(self).len() == old(self).len() + 1,
            final(self).node_at(h.obj as int).same_data(node),
            final(self).node_at(h.obj as int).unlinked(),
            final(self).kids(h.obj as int) == Seq::<int>::empty(),
            final(self).anc(h.obj as int) == Set::<int>::empty(),
            final(self).same_outside(old(self), Set::empty()),
            final(self).pending() == old(self).pending(),
    {
        let mut node = node;
        node.parent_node = None;
        node.first_child = None;
        node.last_child = None;
        node.next_sibling = None;
        node.prev_sibling = None;
        let h = AbstractNode { obj: self.nodes.len(), view: PhantomData };
        self.nodes.push(node);
        proof {
            self.kid_seqs@ = self.kid_seqs@.push(Seq::empty());
            self.anc_sets@ = self.anc_sets@.push(Set::empty());
        }
        assert forall|i: int| 0 <= i < self.len() implies #[trigger] self.node_wf(i) by {
            if i < old(self).len() {
                assert(old(self).node_wf(i));
                assert forall|k: int| 0 <= k < self.kids(i).len() implies #[trigger] self.kid_wf(i, k) by {
                    assert(old(self).kid_wf(i, k));
                }
                if let Some(p) = self.parent(i) {
                    assert(self.kids(p) == old(self).kids(p));
                }
            }
        }
        h
    }

    /// Where `add_child` puts the new child among the children of `p`: at the end, or
    /// at the place of `before`.
    pub open spec fn insert_pos(&self, p: int, before: Option<AbstractNode<View>>) -> int {
        match before {
            None => self.kids(p).len() as int,
            Some(b) => self.kids(p).index_of(b.obj as int),
        }
    }

    /// The ancestors of `x` once the root `c` has been put under `p`.
    pub open spec fn anc_after_add(&self, p: int, c: int, x: int) -> Set<int> {
        if self.in_subtree(c, x) {
            self.anc(x).union(self.anc(p).insert(p))
        } else {
            self.anc(x)
        }
    }

    /// `self` has the nodes, links and ghost records of `old`.
    pub open spec fn tree_same(&self, old: &Self) -> bool {
        &&& self.nodes() == old.nodes()
        &&& self.kid_lists() == old.kid_lists()
        &&& self.anc_lists() == old.anc_lists()
    }

    /// An arena with the nodes and ghost records of a well-formed one is well formed.
    pub proof fn lemma_tree_same_wf(&self, old: &Self)
        requires
            old.wf(),
            self.tree_same(old),
        ensures
            self.wf(),
    {
        assert forall|i: int| 0 <= i < self.len() implies #[trigger] self.node_wf(i) by {
            assert(old.node_wf(i));
            assert forall|k: int| 0 <= k < self.kids(i).len() implies #[trigger] self.kid_wf(i, k) by {
                assert(old.kid_wf(i, k));
            }
        }
    }

    /// Two arenas with the same nodes and ghost records agree on every view of a node.
    pub proof fn lemma_tree_same_views(&self, other: &Self)
        requires
            self.tree_same(other),
        ensures
            self.len() == other.len(),
            forall|i: int| #![trigger self.node_at(i)] #![trigger other.node_at(i)]
                self.node_at(i) == other.node_at(i),
            forall|i: int| #![trigger self.kids(i)] #![trigger other.kids(i)]
                self.kids(i) == other.kids(i),
            forall|i: int| #![trigger self.anc(i)] #![trigger other.anc(i)]
                self.anc(i) == other.anc(i),
            forall|i: int| #![trigger self.parent(i)] #![trigger other.parent(i)]
                self.parent(i) == other.parent(i),
    {
    }

    /// The children of `y` once `n` has been taken from its parent, if it has one.
    pub open spec fn kids_detached(&self, n: int, y: int) -> Seq<int> {
        if self.parent(n) == Some(y) {
            self.kids(y).remove(self.kids(y).index_of(n))
        } else {
            self.kids(y)
        }
    }

    /// The ancestors of `x` once `n` has been taken from its parent, if it has one.
    pub open spec fn anc_detached(&self, n: int, x: int) -> Set<int> {
        if self.parent(n) is Some {
            self.anc_after_remove(n, x)
        } else {
            self.anc(x)
        }
    }

    /// `self` is `old` with the child `c` taken from its parent `p`.
    pub open spec fn is_removal(&self, old: &Self, p: int, c: int) -> bool {
        &&& self.wf()
        &&& self.len() == old.len()
        &&& self.kids(p) == old.kids(p).remove(old.kids(p).index_of(c))
        &&& self.parent(c) is None
        &&& forall|i: int| #![trigger self.node_at(i)]
            old.valid(i) ==> self.node_at(i).same_data(old.node_at(i))
        &&& forall|i: int| #![trigger self.parent(i)]
            old.valid(i) && i != c ==> self.parent(i) == old.parent(i)
        &&& forall|i: int| #![trigger self.kids(i)]
            old.valid(i) && i != p ==> self.kids(i) == old.kids(i)
        &&& forall|x: int| #![trigger self.anc(x)]
            old.valid(x) ==> self.anc(x) == old.anc_after_remove(c, x)
    }

    /// Taking `c` from its parent keeps the subtree of `c` and leaves the ancestors of
    /// the nodes outside of it as they were.
    pub proof fn lemma_removal_subtree(&self, old: &Self, p: int, c: int)
        requires
            old.wf(),
            old.valid(c),
            old.parent(c) == Some(p),
            self.is_removal(old, p, c),
        ensures
            forall|x: int| #![trigger self.in_subtree(c, x)]
                old.valid(x) ==> self.in_subtree(c, x) == old.in_subtree(c, x),
            forall|x: int| #![trigger self.anc(x)]
                old.valid(x) && !old.in_subtree(c, x) ==> self.anc(x) == old.anc(x),
    {
        assert(old.node_wf(c));
        assert forall|x: int| #![trigger self.in_subtree(c, x)]
            old.valid(x) implies self.in_subtree(c, x) == old.in_subtree(c, x) by {
            assert(self.anc(x) == old.anc_after_remove(c, x));
        }
    }

    /// `self` is `old` with the root `c` put under `p`, at place `pos` among its children.
    pub open spec fn is_addition(&self, old: &Self, p: int, c: int, pos: int) -> bool {
        &&& self.wf()
        &&& self.len() == old.len()
        &&& self.kids(p) == old.kids(p).insert(pos, c)
        &&& self.parent(c) == Some(p)
        &&& forall|i: int| #![trigger self.node_at(i)]
            old.valid(i) ==> self.node_at(i).same_data(old.node_at(i))
        &&& forall|i: int| #![trigger self.parent(i)]
            old.valid(i) && i != c ==> self.parent(i) == old.parent(i)
        &&& forall|i: int| #![trigger self.kids(i)]
            old.valid(i) && i != p ==> self.kids(i) == old.kids(i)
        &&& forall|x: int| #![trigger self.anc(x)]
            old.valid(x) ==> self.anc(x) == old.anc_after_add(p, c, x)
    }

    /// Makes the root `c` a child of `p`: the last one, or the one just before `before`.
    pub fn add_child(
        &mut self,
        p: AbstractNode<View>,
        c: AbstractNode<View>,
        before: Option<AbstractNode<View>>,
    )
        requires
            old(self).wf(),
            old(self).valid(p.obj as int),
            old(self).valid(c.obj as int),
            old(self).parent(c.obj as int) is None,
            !old(self).in_subtree(c.obj as int, p.obj as int),
            old(self).node_at(c.obj as int).owner_doc is Some,
            before matches Some(b) ==> old(self).valid(b.obj as int) && old(self).parent(b.obj as int) == Some(p.obj as int),
        ensures
            final(self).is_addition(old(self), p.obj as int, c.obj as int, old(self).insert_pos(p.obj as int, before)),
            final(self).pending() == old(self).pending(),
    {
        let ghost pi = p.obj as int;
        let ghost ci = c.obj as int;
        let ghost pos = old(self).insert_pos(pi, before);
        let ghost ks = old(self).kids(pi);
        proof {
            assert(old(self).node_wf(pi));
            assert(old(self).node_wf(ci));
            assert(!ks.contains(ci)) by {
                if ks.contains(ci) {
                    let k = choose|k: int| 0 <= k < ks.len() && ks[k] == ci;
                    assert(old(self).kid_wf(pi, k));
                }
            }
            if let Some(b) = before {
                assert(old(self).node_wf(b.obj as int));
                assert(ks.contains(b.obj as int));
                assert(0 <= pos < ks.len() && ks[pos] == b.obj);
                assert(old(self).kid_wf(pi, pos));
                if pos > 0 {
                    assert(old(self).kid_wf(pi, pos - 1));
                }
            }
        }
        match before {
            Some(b) => {
                let prev = self.nodes[b.obj].prev_sibling;
                self.nodes[b.obj].prev_sibling = Some(c);
                self.nodes[c.obj].next_sibling = Some(b);
                match prev {
                    None => {
                        self.nodes[p.obj].first_child = Some(c);
                    },
                    Some(ps) => {
                        proof { assert(old(self).kid_wf(pi, pos)); }
                        self.nodes[ps.obj].next_sibling = Some(c);
                        self.nodes[c.obj].prev_sibling = Some(ps);
                    },
                }
            },
            None => {
                match self.nodes[p.obj].last_child {
                    None => {
                        self.nodes[p.obj].first_child = Some(c);
                    },
                    Some(lc) => {
                        proof { assert(old(self).kid_wf(pi, ks.len() - 1)); }
                        self.nodes[lc.obj].next_sibling = Some(c);
                        self.nodes[c.obj].prev_sibling = Some(lc);
                    },
                }
                self.nodes[p.obj].last_child = Some(c);
            },
        }
        self.nodes[c.obj].parent_node = Some(p);
        proof {
            let ghost o = *old(self);
            let nks = ks.insert(pos, ci);
            ks.insert_ensures(pos, ci);
            self.kid_seqs@ = o.kid_lists().update(pi, nks);
            self.anc_sets@ = Seq::new(o.len(), |x: int| o.anc_after_add(pi, ci, x));
            self.lemma_add_child_wf(o, pi, ci, pos);
        }
    }

    /// The new state after `add_child` is well formed, given how its links and ghost
    /// records differ from those of `o`.
    proof fn lemma_add_child_wf(&self, o: Self, pi: int, ci: int, pos: int)
        requires
            o.wf(),
            o.valid(pi),
            o.valid(ci),
            o.parent(ci) is None,
            !o.in_subtree(ci, pi),
            o.node_at(ci).owner_doc is Some,
            0 <= pos <= o.kids(pi).len(),
            self.len() == o.len(),
            self.kid_lists() == o.kid_lists().update(pi, o.kids(pi).insert(pos, ci)),
            self.anc_lists() == Seq::new(o.len(), |x: int| o.anc_after_add(pi, ci, x)),
            forall|i: int| #![trigger self.node_at(i)]
                o.valid(i) ==> self.node_at(i).same_data(o.node_at(i)),
            forall|i: int| #![trigger self.parent(i)]
                o.valid(i) ==> self.parent(i) == if i == ci { Some(pi) } else { o.parent(i) },
            forall|i: int| #![trigger self.prev(i)]
                o.valid(i) ==> self.prev(i) == if i == ci {
                    prev_in(o.kids(pi), pos)
                } else if pos < o.kids(pi).len() && i == o.kids(pi)[pos] {
                    Some(ci)
                } else {
                    o.prev(i)
                },
            forall|i: int| #![trigger self.next(i)]
                o.valid(i) ==> self.next(i) == if i == ci {
                    if pos < o.kids(pi).len() { Some(o.kids(pi)[pos]) } else { None }
                } else if pos > 0 && i == o.kids(pi)[pos - 1] {
                    Some(ci)
                } else {
                    o.next(i)
                },
            forall|i: int| #![trigger self.first(i)]
                o.valid(i) ==> self.first(i) == if i == pi && pos == 0 { Some(ci) } else { o.first(i) },
            forall|i: int| #![trigger self.last(i)]
                o.valid(i) ==> self.last(i) == if i == pi && pos == o.kids(pi).len() { Some(ci) } else { o.last(i) },
        ensures
            self.wf(),
    {
        let ks = o.kids(pi);
        let nks = ks.insert(pos, ci);
        let a = o.anc(pi).insert(pi);
        ks.insert_ensures(pos, ci);
        assert(o.node_wf(pi));
        assert(o.node_wf(ci));
        // The children of `p` are neither `c` nor `p`.
        assert forall|k: int| 0 <= k < ks.len() implies ks[k] != ci && ks[k] != pi by {
            assert(o.kid_wf(pi, k));
            assert(o.node_wf(ks[k]));
        }
        assert forall|i: int| 0 <= i < self.len() implies #[trigger] self.node_wf(i) by {
            assert(o.node_wf(i));
            o.lemma_anc_valid(i);
            // Children lists.
            if i == pi {
                assert(nks.no_duplicates());
                assert forall|k: int| 0 <= k < nks.len() implies #[trigger] self.kid_wf(i, k) by {
                    if k < pos {
                        assert(o.kid_wf(pi, k));
                    } else if k > pos {
                        assert(o.kid_wf(pi, k - 1));
                    } else {
                        if pos > 0 {
                            assert(o.kid_wf(pi, pos - 1));
                        }
                        if pos < ks.len() {
                            assert(o.kid_wf(pi, pos));
                        }
                    }
                }
            } else {
                assert forall|k: int| 0 <= k < self.kids(i).len() implies #[trigger] self.kid_wf(i, k) by {
                    assert(o.kid_wf(i, k));
                    let x = o.kids(i)[k];
                    assert(x != ci);
                    if pos < ks.len() && x == ks[pos] {
                        assert(o.kid_wf(pi, pos));
                    }
                    if pos > 0 && x == ks[pos - 1] {
                        assert(o.kid_wf(pi, pos - 1));
                    }
                }
            }
            // Ancestors.
            let q = o.parent(i);
            if o.in_subtree(ci, i) {
                if i != ci {
                    let qq = q->0;
                    assert(o.node_wf(qq));
                    assert(o.in_subtree(ci, qq));
                    assert(self.anc(i) =~= self.anc(qq).insert(qq));
                }
                assert(!a.contains(i)) by {
                    if a.contains(i) {
                        if i != pi {
                            o.lemma_anc_trans(i, pi);
                        }
                    }
                }
            } else {
                if let Some(qq) = q {
                    assert(!o.in_subtree(ci, qq));
                }
            }
            if i == ci {
                assert(self.anc(ci) =~= a);
            }
            // Siblings of roots.
            if q is None && i != ci {
                if pos < ks.len() && i == ks[pos] {
                    assert(o.kid_wf(pi, pos));
                }
                if pos > 0 && i == ks[pos - 1] {
                    assert(o.kid_wf(pi, pos - 1));
                }
            }
            if let Some(qq) = self.parent(i) {
                if qq == pi && i != ci {
                    let k = choose|k: int| 0 <= k < ks.len() && ks[k] == i;
                    if k < pos {
                        assert(nks[k] == i);
                    } else {
                        assert(nks[k + 1] == i);
                    }
                }
                if i == ci {
                    assert(nks[pos] == ci);
                }
            }
        }
    }

    /// The ancestors of `x` once the child `c` has been taken from its parent.
    pub open spec fn anc_after_remove(&self, c: int, x: int) -> Set<int> {
        if self.in_subtree(c, x) {
            self.anc(x).difference(self.anc(c))
        } else {
            self.anc(x)
        }
    }

    /// Takes the child `c` from `p`; `c` becomes a root.
    pub fn remove_child(&mut self, p: AbstractNode<View>, c: AbstractNode<View>)
        requires
            old(self).wf(),
            old(self).valid(c.obj as int),
            old(self).parent(c.obj as int) == Some(p.obj as int),
        ensures
            final(self).is_removal(old(self), p.obj as int, c.obj as int),
            final(self).pending() == old(self).pending(),
    {
        let ghost pi = p.obj as int;
        let ghost ci = c.obj as int;
        let ghost ks = old(self).kids(pi);
        let ghost pos = ks.index_of(ci);
        proof {
            assert(old(self).node_wf(ci));
            assert(old(self).node_wf(pi));
            assert(0 <= pos < ks.len() && ks[pos] == ci);
            assert(old(self).kid_wf(pi, pos));
            if pos > 0 {
                assert(old(self).kid_wf(pi, pos - 1));
            }
            if pos + 1 < ks.len() {
                assert(old(self).kid_wf(pi, pos + 1));
            }
        }
        let prev = self.nodes[c.obj].prev_sibling;
        let next = self.nodes[c.obj].next_sibling;
        match prev {
            None => {
                self.nodes[p.obj].first_child = next;
            },
            Some(ps) => {
                self.nodes[ps.obj].next_sibling = next;
            },
        }
        match next {
            None => {
                self.nodes[p.obj].last_child = prev;
            },
            Some(ns) => {
                self.nodes[ns.obj].prev_sibling = prev;
            },
        }
        self.nodes[c.obj].prev_sibling = None;
        self.nodes[c.obj].next_sibling = None;
        self.nodes[c.obj].parent_node = None;
        proof {
            let ghost o = *old(self);
            ks.remove_ensures(pos);
            self.kid_seqs@ = o.kid_lists().update(pi, ks.remove(pos));
            self.anc_sets@ = Seq::new(o.len(), |x: int| o.anc_after_remove(ci, x));
            self.lemma_remove_child_wf(o, pi, ci, pos);
        }
    }

    /// The new state after `remove_child` is well formed, given how its links and ghost
    /// records differ from those of `o`.
    proof fn lemma_remove_child_wf(&self, o: Self, pi: int, ci: int, pos: int)
        requires
            o.wf(),
            o.valid(ci),
            o.parent(ci) == Some(pi),
            0 <= pos < o.kids(pi).len(),
            o.kids(pi)[pos] == ci,
            self.len() == o.len(),
            self.kid_lists() == o.kid_lists().update(pi, o.kids(pi).remove(pos)),
            self.anc_lists() == Seq::new(o.len(), |x: int| o.anc_after_remove(ci, x)),
            forall|i: int| #![trigger self.node_at(i)]
                o.valid(i) ==> self.node_at(i).same_data(o.node_at(i)),
            forall|i: int| #![trigger self.parent(i)]
                o.valid(i) ==> self.parent(i) == if i == ci { None } else { o.parent(i) },
            forall|i: int| #![trigger self.prev(i)]
                o.valid(i) ==> self.prev(i) == if i == ci {
                    None
                } else if pos + 1 < o.kids(pi).len() && i == o.kids(pi)[pos + 1] {
                    prev_in(o.kids(pi), pos)
                } else {
                    o.prev(i)
                },
            forall|i: int| #![trigger self.next(i)]
                o.valid(i) ==> self.next(i) == if i == ci {
                    None
                } else if pos > 0 && i == o.kids(pi)[pos - 1] {
                    next_in(o.kids(pi), pos)
                } else {
                    o.next(i)
                },
            forall|i: int| #![trigger self.first(i)]
                o.valid(i) ==> self.first(i) == if i == pi && pos == 0 { next_in(o.kids(pi), pos) } else { o.first(i) },
            forall|i: int| #![trigger self.last(i)]
                o.valid(i) ==> self.last(i) == if i == pi && pos + 1 == o.kids(pi).len() { prev_in(o.kids(pi), pos) } else { o.last(i) },
        ensures
            self.wf(),
    {
        let ks = o.kids(pi);
        let nks = ks.remove(pos);
        let a = o.anc(ci);
        ks.remove_ensures(pos);
        assert(o.node_wf(ci));
        assert(o.node_wf(pi));
        assert forall|k: int| 0 <= k < ks.len() implies ks[k] != pi by {
            assert(o.kid_wf(pi, k));
            assert(o.node_wf(ks[k]));
        }
        assert forall|i: int| 0 <= i < self.len() implies #[trigger] self.node_wf(i) by {
            assert(o.node_wf(i));
            o.lemma_anc_valid(i);
            if i == pi {
                assert forall|k: int| 0 <= k < nks.len() implies #[trigger] self.kid_wf(i, k) by {
                    if k < pos {
                        assert(o.kid_wf(pi, k));
                        assert(ks[k] != ci);
                    } else {
                        assert(o.kid_wf(pi, k + 1));
                        assert(ks[k + 1] != ci);
                    }
                }
            } else {
                assert forall|k: int| 0 <= k < self.kids(i).len() implies #[trigger] self.kid_wf(i, k) by {
                    assert(o.kid_wf(i, k));
                    let x = o.kids(i)[k];
                    if pos + 1 < ks.len() && x == ks[pos + 1] {
                        assert(o.kid_wf(pi, pos + 1));
                    }
                    if pos > 0 && x == ks[pos - 1] {
                        assert(o.kid_wf(pi, pos - 1));
                    }
                }
            }
            let q = o.parent(i);
            if o.in_subtree(ci, i) {
                if i != ci {
                    let qq = q->0;
                    assert(o.node_wf(qq));
                    assert(o.in_subtree(ci, qq));
                    o.lemma_anc_trans(ci, i);
                    assert(!a.contains(qq)) by {
                        if a.contains(qq) {
                            if qq != ci {
                                o.lemma_anc_trans(qq, ci);
                            }
                        }
                    }
                    assert(self.anc(i) =~= self.anc(qq).insert(qq));
                } else {
                    assert(self.anc(ci) =~= Set::<int>::empty());
                }
            } else {
                if let Some(qq) = q {
                    assert(!o.in_subtree(ci, qq));
                }
            }
            if q is None {
                assert(i != ci);
                if pos > 0 && i == ks[pos - 1] {
                    assert(o.kid_wf(pi, pos - 1));
                }
                if pos + 1 < ks.len() && i == ks[pos + 1] {
                    assert(o.kid_wf(pi, pos + 1));
                }
            }
            if let Some(qq) = self.parent(i) {
                if qq == pi {
                    let k = choose|k: int| 0 <= k < ks.len() && ks[k] == i;
                    assert(k != pos);
                    if k < pos {
                        assert(nks[k] == i);
                    } else {
                        assert(nks[k - 1] == i);
                    }
                }
            }
        }
    }

    /// Node `c` and the siblings after it, in order.
    pub open spec fn siblings_from(&self, c: int) -> Seq<int> {
        match self.parent(c) {
            Some(p) => self.kids(p).subrange(self.kids(p).index_of(c), self.kids(p).len() as int),
            None => seq![c],
        }
    }

    /// The siblings from `c` on are `c` and the siblings from its next sibling on.
    pub proof fn lemma_siblings_from_step(&self, c: int)
        requires
            self.wf(),
            self.valid(c),
        ensures
            self.siblings_from(c).len() > 0,
            self.siblings_from(c)[0] == c,
            self.next(c) matches Some(n) ==> self.valid(n) && self.siblings_from(c) == seq![c] + self.siblings_from(n),
            self.next(c) is None ==> self.siblings_from(c) == seq![c],
    {
        assert(self.node_wf(c));
        if let Some(p) = self.parent(c) {
            assert(self.node_wf(p));
            let ks = self.kids(p);
            let k = choose|k: int| 0 <= k < ks.len() && ks[k] == c;
            assert(ks.index_of(c) == k) by {
                assert(ks.contains(c));
                let j = ks.index_of(c);
                assert(ks[j] == c);
            }
            assert(self.kid_wf(p, k));
            if k + 1 < ks.len() {
                let n = ks[k + 1];
                assert(self.kid_wf(p, k + 1));
                assert(self.node_wf(n));
                assert(ks.index_of(n) == k + 1) by {
                    assert(ks.contains(n));
                    let j = ks.index_of(n);
                    assert(ks[j] == n);
                }
                assert(self.siblings_from(c) =~= seq![c] + self.siblings_from(n));
            } else {
                assert(self.siblings_from(c) =~= seq![c]);
            }
        }
    }

    /// The siblings from the first child on are all the children.
    pub proof fn lemma_first_child_siblings(&self, p: int)
        requires
            self.wf(),
            self.valid(p),
        ensures
            self.first(p) matches Some(f) ==> self.valid(f) && self.siblings_from(f) == self.kids(p),
            self.first(p) is None ==> self.kids(p).len() == 0,
    {
        assert(self.node_wf(p));
        let ks = self.kids(p);
        if ks.len() > 0 {
            assert(self.kid_wf(p, 0));
            let f = ks[0];
            assert(ks.index_of(f) == 0) by {
                assert(ks.contains(f));
                let j = ks.index_of(f);
                assert(ks[j] == f);
            }
            assert(self.siblings_from(f) =~= ks);
        }
    }

    /// `self` has the nodes, links and ghost records of `old`, but for the data of
    /// node `h`, which is now `n`; the links of `n` are those of the old node.
    pub open spec fn data_updated(&self, old: &Self, h: int, n: Node<View>) -> bool {
        &&& self.nodes() == old.nodes().update(h, n)
        &&& self.kid_lists() == old.kid_lists()
        &&& self.anc_lists() == old.anc_lists()
        &&& n.parent_node == old.node_at(h).parent_node
        &&& n.first_child == old.node_at(h).first_child
        &&& n.last_child == old.node_at(h).last_child
        &&& n.prev_sibling == old.node_at(h).prev_sibling
        &&& n.next_sibling == old.node_at(h).next_sibling
    }

    /// Changing what a node carries, but not its type or links, keeps the arena well
    /// formed as long as a node with a parent keeps an owner document.
    proof fn lemma_data_updated_wf(&self, old: &Self, h: int, n: Node<View>)
        requires
            old.wf(),
            old.valid(h),
            self.data_updated(old, h, n),
            n.wf(),
            n.type_id == old.node_at(h).type_id,
            n.owner_doc matches Some(d) ==> old.is_document_handle(d),
            old.parent(h) is Some ==> n.owner_doc is Some,
        ensures
            self.wf(),
    {
        assert forall|i: int| 0 <= i < self.len() implies #[trigger] self.node_wf(i) by {
            assert(old.node_wf(i));
            assert forall|k: int| 0 <= k < self.kids(i).len() implies #[trigger] self.kid_wf(i, k) by {
                assert(old.kid_wf(i, k));
            }
        }
    }

    /// Sets the document that node `h` belongs to.
    pub fn set_owner_doc(&mut self, h: AbstractNode<View>, doc: AbstractDocument)
        requires
            old(self).wf(),
            old(self).valid(h.obj as int),
            old(self).is_document_handle(doc),
        ensures
            final(self).wf(),
            final(self).data_updated(
                old(self),
                h.obj as int,
                Node { owner_doc: Some(doc), ..old(self).node_at(h.obj as int) },
            ),
            final(self).pending() == old(self).pending(),
    {
        self.nodes[h.obj].owner_doc = Some(doc);
        proof {
            let ghost o = *old(self);
            assert(self.nodes() =~= o.nodes().update(h.obj as int, Node { owner_doc: Some(doc), ..o.node_at(h.obj as int) }));
            assert(o.node_wf(h.obj as int));
            self.lemma_data_updated_wf(&o, h.obj as int, Node { owner_doc: Some(doc), ..o.node_at(h.obj as int) });
        }
    }

    /// Replaces what node `h` carries by `content`, of the same kind.
    pub fn set_content(&mut self, h: AbstractNode<View>, content: NodeContent)
        requires
            old(self).wf(),
            old(self).valid(h.obj as int),
            content_fits(old(self).node_at(h.obj as int).type_id, content),
        ensures
            final(self).wf(),
            final(self).data_updated(
                old(self),
                h.obj as int,
                Node { content: content, ..old(self).node_at(h.obj as int) },
            ),
            final(self).pending() == old(self).pending(),
    {
        self.nodes[h.obj].content = content;
        proof {
            let ghost o = *old(self);
            assert(o.node_wf(h.obj as int));
            self.lemma_data_updated_wf(&o, h.obj as int, Node { content: content, ..o.node_at(h.obj as int) });
        }
    }

    /// Keeps `list` as the live list of the children of node `h`.
    pub fn set_child_list(&mut self, h: AbstractNode<View>, list: NodeList)
        requires
            old(self).wf(),
            old(self).valid(h.obj as int),
        ensures
            final(self).wf(),
            final(self).data_updated(
                old(self),
                h.obj as int,
                Node { child_list: Some(list), ..old(self).node_at(h.obj as int) },
            ),
            final(self).pending() == old(self).pending(),
    {
        self.nodes[h.obj].child_list = Some(list);
        proof {
            let ghost o = *old(self);
            assert(o.node_wf(h.obj as int));
            self.lemma_data_updated_wf(&o, h.obj as int, Node { child_list: Some(list), ..o.node_at(h.obj as int) });
        }
    }

    /// Leaves a request for a document.
    pub fn push_action(&mut self, a: DocumentAction<View>)
        ensures
            final(self).nodes() == old(self).nodes(),
            final(self).kid_lists() == old(self).kid_lists(),
            final(self).anc_lists() == old(self).anc_lists(),
            final(self).pending() == old(self).pending().push(a),
            old(self).wf() ==> final(self).wf(),
    {
        self.actions.push(a);
        proof {
            if old(self).wf() {
                self.lemma_tree_same_wf(old(self));
            }
        }
    }

    /// Hands over the requests left for the documents, oldest first, and forgets them.
    pub fn take_actions(&mut self) -> (r: Vec<DocumentAction<View>>)
        ensures
            r@ == old(self).pending(),
            final(self).nodes() == old(self).nodes(),
            final(self).kid_lists() == old(self).kid_lists(),
            final(self).anc_lists() == old(self).anc_lists(),
            final(self).pending().len() == 0,
    {
        let mut r = Vec::new();
        std::mem::swap(&mut r, &mut self.actions);
        r
    }

    /// The owner document of `x` once every node of the subtree of `n` belongs to `doc`.
    pub open spec fn owner_after_adopt(&self, n: int, doc: AbstractDocument, x: int) -> Option<AbstractDocument> {
        if self.in_subtree(n, x) {
            Some(doc)
        } else {
            self.node_at(x).owner_doc
        }
    }

    /// `self` is `old` with every node of the subtree of `n` moved to document `doc`.
    pub open spec fn is_owner_update(&self, old: &Self, n: int, doc: AbstractDocument) -> bool {
        &&& self.wf()
        &&& self.len() == old.len()
        &&& self.kid_lists() == old.kid_lists()
        &&& self.anc_lists() == old.anc_lists()
        &&& forall|i: int| #![trigger self.node_at(i)]
            old.valid(i) ==> self.node_at(i) == (Node { owner_doc: old.owner_after_adopt(n, doc, i), ..old.node_at(i) })
    }

    /// Moves every node of the subtree of `x` to document `doc`. `fuel` bounds the
    /// height of the subtree.
    pub(crate) fn set_subtree_owner(&mut self, x: AbstractNode<View>, doc: AbstractDocument, Ghost(fuel): Ghost<nat>)
        requires
            old(self).wf(),
            old(self).valid(x.obj as int),
            old(self).is_document_handle(doc),
            fuel + old(self).anc(x.obj as int).len() >= old(self).len(),
        ensures
            final(self).is_owner_update(old(self), x.obj as int, doc),
            final(self).pending() == old(self).pending(),
        decreases fuel,
    {
        let ghost xi = x.obj as int;
        proof {
            old(self).lemma_anc_valid(xi);
        }
        self.set_owner_doc(x, doc);
        let kids = x.children(self).collect(self);
        let ghost ks = old(self).kids(xi);
        assert(ids(kids@) == ks);
        let mut j: usize = 0;
        while j < kids.len()
            invariant
                old(self).wf(),
                old(self).valid(xi),
                old(self).is_document_handle(doc),
                self.is_document_handle(doc),
                fuel + old(self).anc(xi).len() >= old(self).len(),
                old(self).anc(xi).len() < old(self).len(),
                ids(kids@) == ks,
                ks == old(self).kids(xi),
                j <= kids.len(),
                self.wf(),
                self.len() == old(self).len(),
                self.kid_lists() == old(self).kid_lists(),
                self.anc_lists() == old(self).anc_lists(),
                self.pending() == old(self).pending(),
                forall|i: int| #![trigger self.node_at(i)]
                    old(self).valid(i) ==> self.node_at(i) == (Node {
                        owner_doc: if i == xi || exists|m: int| 0 <= m < j && #[trigger] old(self).in_subtree(ks[m], i) {
                            Some(doc)
                        } else {
                            old(self).node_at(i).owner_doc
                        },
                        ..old(self).node_at(i)
                    }),
            decreases kids.len() - j,
        {
            let k = kids[j];
            proof {
                assert(kids@[j as int].obj as int == ks[j as int]);
                assert(old(self).node_wf(xi));
                assert(old(self).kid_wf(xi, j as int));
                assert(old(self).node_wf(k.obj as int));
                assert(old(self).anc(k.obj as int) == old(self).anc(xi).insert(xi));
            }
            let ghost mid = *self;
            self.set_subtree_owner(k, doc, Ghost((fuel - 1) as nat));
            proof {
                assert(self.node_at(doc.node as int) == (Node {
                    owner_doc: mid.owner_after_adopt(k.obj as int, doc, doc.node as int),
                    ..mid.node_at(doc.node as int)
                }));
                assert forall|i: int| #![trigger self.node_at(i)] old(self).valid(i) implies self.node_at(i) == (Node {
                        owner_doc: if i == xi || exists|m: int| 0 <= m < j + 1 && #[trigger] old(self).in_subtree(ks[m], i) {
                            Some(doc)
                        } else {
                            old(self).node_at(i).owner_doc
                        },
                        ..old(self).node_at(i)
                    }) by {
                    assert(mid.node_at(i) == self.node_at(i) || mid.in_subtree(k.obj as int, i));
                    if old(self).in_subtree(ks[j as int], i) {
                        assert(exists|m: int| 0 <= m < j + 1 && #[trigger] old(self).in_subtree(ks[m], i));
                    } else {
                        if exists|m: int| 0 <= m < j + 1 && #[trigger] old(self).in_subtree(ks[m], i) {
                            let m = choose|m: int| 0 <= m < j + 1 && #[trigger] old(self).in_subtree(ks[m], i);
                            assert(m != j);
                        }
                    }
                }
            }
            j = j + 1;
        }
        proof {
            assert forall|i: int| #![trigger self.node_at(i)] old(self).valid(i) implies self.node_at(i) == (Node {
                    owner_doc: old(self).owner_after_adopt(xi, doc, i),
                    ..old(self).node_at(i)
                }) by {
                if old(self).anc(i).contains(xi) {
                    old(self).lemma_below_child(xi, i);
                    let c = choose|c: int| #[trigger] old(self).kids(xi).contains(c) && old(self).in_subtree(c, i);
                    let m = choose|m: int| 0 <= m < ks.len() && ks[m] == c;
                    assert(old(self).in_subtree(ks[m], i));
                } else if i != xi {
                    if exists|m: int| 0 <= m < ks.len() && #[trigger] old(self).in_subtree(ks[m], i) {
                        let m = choose|m: int| 0 <= m < ks.len() && #[trigger] old(self).in_subtree(ks[m], i);
                        assert(old(self).node_wf(xi));
                        assert(old(self).kid_wf(xi, m));
                        let c = ks[m];
                        assert(old(self).node_wf(c));
                        if c != i {
                            old(self).lemma_anc_trans(c, i);
                        }
                        assert(false);
                    }
                }
            }
        }
    }

    /// The ancestors of a node form a chain: of two of them, one is an ancestor of the
    /// other.
    pub proof fn lemma_anc_chain(&self, x: int, a: int, b: int)
        requires
            self.wf(),
            self.valid(x),
            self.anc(x).contains(a),
            self.anc(x).contains(b),
        ensures
            a == b || self.anc(a).contains(b) || self.anc(b).contains(a),
        decreases self.anc(x).len(),
    {
        assert(self.node_wf(x));
        let q = self.parent(x)->0;
        assert(self.node_wf(q));
        if a != q && b != q {
            assert(self.anc(q).len() < self.anc(x).len()) by {
                assert(!self.anc(q).contains(q));
            }
            self.lemma_anc_chain(q, a, b);
        }
    }

    /// The subtrees of two different children of a node have no node in common.
    pub proof fn lemma_sibling_subtrees_disjoint(&self, s: int, m: int, j: int, x: int)
        requires
            self.wf(),
            self.valid(s),
            self.valid(x),
            0 <= m < self.kids(s).len(),
            0 <= j < self.kids(s).len(),
            m != j,
            self.in_subtree(self.kids(s)[m], x),
        ensures
            !self.in_subtree(self.kids(s)[j], x),
    {
        let ks = self.kids(s);
        let a = ks[m];
        let b = ks[j];
        assert(self.node_wf(s));
        assert(self.kid_wf(s, m));
        assert(self.kid_wf(s, j));
        assert(a != b);
        assert(self.node_wf(a));
        assert(self.node_wf(b));
        if self.in_subtree(b, x) {
            if a == x {
                // b is an ancestor of a, so b is s or above it; but s is b's parent.
                assert(self.anc(a).contains(b));
                assert(self.anc(s).contains(b));
                self.lemma_anc_trans(b, s);
                assert(self.anc(b).contains(s));
            } else if b == x {
                assert(self.anc(s).contains(a));
                self.lemma_anc_trans(a, s);
                assert(self.anc(a).contains(s));
            } else {
                self.lemma_anc_chain(x, a, b);
                if self.anc(a).contains(b) {
                    assert(self.anc(s).contains(b));
                    self.lemma_anc_trans(b, s);
                } else {
                    assert(self.anc(s).contains(a));
                    self.lemma_anc_trans(a, s);
                }
            }
        }
    }

    /// Every ancestor of a node is a node of the arena, and a node has fewer ancestors
    /// than the arena has nodes.
    pub proof fn lemma_anc_valid(&self, i: int)
        requires
            self.wf(),
            self.valid(i),
        ensures
            forall|a: int| #[trigger] self.anc(i).contains(a) ==> self.valid(a),
            self.anc(i).len() < self.len(),
        decreases self.anc(i).len(),
    {
        assert(self.node_wf(i));
        match self.parent(i) {
            None => {
                assert(self.anc(i).len() == 0);
            },
            Some(p) => {
                assert(self.node_wf(p));
                assert(self.anc(p).len() < self.anc(i).len()) by {
                    assert(!self.anc(p).contains(p));
                }
                self.lemma_anc_valid(p);
            },
        }
        let r = set_int_range(0, self.len() as int);
        lemma_int_range(0, self.len() as int);
        assert(self.anc(i).insert(i).subset_of(r));
        lemma_len_subset(self.anc(i).insert(i), r);
    }

    /// The ancestors of an ancestor are ancestors.
    pub proof fn lemma_anc_trans(&self, a: int, b: int)
        requires
            self.wf(),
            self.valid(b),
            self.anc(b).contains(a),
        ensures
            self.anc(a).subset_of(self.anc(b)),
        decreases self.anc(b).len(),
    {
        assert(self.node_wf(b));
        let p = self.parent(b)->0;
        assert(self.node_wf(p));
        if p != a {
            assert(self.anc(p).len() < self.anc(b).len()) by {
                assert(!self.anc(p).contains(p));
            }
            self.lemma_anc_trans(a, p);
        }
    }

    /// A node below `x` lies below, or is, one of the children of `x`.
    pub proof fn lemma_below_child(&self, x: int, y: int)
        requires
            self.wf(),
            self.valid(y),
            self.anc(y).contains(x),
        ensures
            exists|c: int| #[trigger] self.kids(x).contains(c) && self.in_subtree(c, y),
        decreases self.anc(y).len(),
    {
        assert(self.node_wf(y));
        let q = self.parent(y)->0;
        assert(self.node_wf(q));
        if q == x {
            assert(self.kids(x).contains(y) && self.in_subtree(y, y));
        } else {
            assert(self.anc(q).len() < self.anc(y).len()) by {
                assert(!self.anc(q).contains(q));
            }
            self.lemma_below_child(x, q);
            let c = choose|c: int| #[trigger] self.kids(x).contains(c) && self.in_subtree(c, q);
            assert(self.kids(x).contains(c) && self.in_subtree(c, y));
        }
    }
}


impl NodeArena<LayoutView> {
    /// Replaces the layout data of node `h`.
    pub fn set_layout_data(&mut self, h: AbstractNode<LayoutView>, data: LayoutData)
        requires
            old(self).wf(),
            old(self).valid(h.obj as int),
        ensures
            final(self).wf(),
            final(self).data_updated(
                old(self),
                h.obj as int,
                Node { layout_data: final(self).node_at(h.obj as int).layout_data, ..old(self).node_at(h.obj as int) },
            ),
            final(self).node_at(h.obj as int).layout_data@ == data,
            final(self).pending() == old(self).pending(),
    {
        let _ = self.replace_layout_data(h, data);
    }

    /// Puts `data` in place of the layout data of node `h`, and gives back the old data.
    pub fn replace_layout_data(&mut self, h: AbstractNode<LayoutView>, data: LayoutData) -> (r: LayoutData)
        requires
            old(self).wf(),
            old(self).valid(h.obj as int),
        ensures
            r == old(self).node_at(h.obj as int).layout_data@,
            final(self).wf(),
            final(self).data_updated(
                old(self),
                h.obj as int,
                Node { layout_data: final(self).node_at(h.obj as int).layout_data, ..old(self).node_at(h.obj as int) },
            ),
            final(self).node_at(h.obj as int).layout_data@ == data,
            final(self).pending() == old(self).pending(),
    {
        let d = self.nodes[h.obj].layout_data.replace(data);
        proof {
            let ghost o = *old(self);
            let ghost n = Node { layout_data: self.node_at(h.obj as int).layout_data, ..o.node_at(h.obj as int) };
            assert(o.node_wf(h.obj as int));
            assert(self.nodes() =~= o.nodes().update(h.obj as int, n));
            self.lemma_data_updated_wf(&o, h.obj as int, n);
        }
        d
    }
}

} // verus!
