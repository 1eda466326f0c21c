use vstd::prelude::*;
use crate::node::{AbstractNode, Node};
use crate::fragment::spliced;
use crate::layout::LayoutData;
use crate::script::{
    adopted_owner, append_outcome, insertion_outcome, insertion_place, is_empty_dom_str,
    is_text_replacement, pre_insert_check,
    text_content_of, text_of, text_of_list, own_text,
};
use crate::tree::NodeArena;
use crate::types::{
    DOMString, LayoutView, ScriptView, content_chars, dom_str_chars, is_characterdata_type, is_document_type,
    is_element_type,
    is_fragment_type,
};

verus! {

/// Setting the text content of an element or a document fragment, then reading it,
/// gives back the string that was set (an absent string reads as the empty one).
pub proof fn law_text_content_round_trip(
    new: &NodeArena<ScriptView>,
    old: &NodeArena<ScriptView>,
    s: int,
    value: DOMString,
)
    requires
        old.wf(),
        old.valid(s),
        is_fragment_type(old.node_at(s).type_id) || is_element_type(old.node_at(s).type_id),
        is_text_replacement(new, old, s, value),
    ensures
        text_content_of(new, s) == Some(dom_str_chars(value)),
{
    let n = old.len() as int;
    let l = new.len();
    assert(new.node_at(s).same_data(old.node_at(s)));
    assert(own_text(new, s) == Seq::<char>::empty());
    if is_empty_dom_str(value) {
        assert(text_of_list(new, new.kids(s), (l - 1) as nat) == Seq::<char>::empty());
        assert(text_of(new, s, l) =~= dom_str_chars(value));
    } else {
        let ks = new.kids(s);
        assert(ks.drop_last() =~= Seq::<int>::empty());
        assert(text_of_list(new, Seq::<int>::empty(), (l - 2) as nat) == Seq::<char>::empty());
        assert(text_of(new, n, (l - 1) as nat) =~= dom_str_chars(value));
        assert(text_of_list(new, ks.drop_last(), (l - 1) as nat) == Seq::<char>::empty());
        assert(text_of_list(new, ks, (l - 1) as nat) =~= dom_str_chars(value));
        assert(text_of(new, s, l) =~= dom_str_chars(value));
    }
}

/// Once `AppendChild` goes ahead with a node other than a document fragment, the node
/// is the last child of the parent, after the children that the parent had besides it,
/// and the node's parent is the parent.
pub proof fn law_append_makes_last_child(
    new: &NodeArena<ScriptView>,
    old: &NodeArena<ScriptView>,
    parent: int,
    node: AbstractNode<ScriptView>,
)
    requires
        old.wf(),
        old.valid(parent),
        old.valid(node.obj as int),
        append_outcome(new, old, parent, node),
        pre_insert_check(old, node.obj as int, parent, None) is Ok,
        !is_fragment_type(old.node_at(node.obj as int).type_id),
    ensures
        new.parent(node.obj as int) == Some(parent),
        new.kids(parent) == old.kids_detached(node.obj as int, parent).push(node.obj as int),
        new.last(parent) == Some(node.obj as int),
{
    let k0 = old.kids_detached(node.obj as int, parent);
    assert(k0.insert(k0.len() as int, node.obj as int) =~= k0.push(node.obj as int));
    assert(new.node_wf(parent));
}

} // verus!

verus! {

/// Once `RemoveChild` goes ahead, the node is a root and the parent's children are the
/// old ones without it.
pub proof fn law_remove_detaches(new: &NodeArena<ScriptView>, old: &NodeArena<ScriptView>, parent: int, node: int)
    requires
        old.wf(),
        old.valid(node),
        old.parent(node) == Some(parent),
        new.is_removal(old, parent, node),
    ensures
        new.parent(node) is None,
        !new.kids(parent).contains(node),
        new.kids(parent).len() + 1 == old.kids(parent).len(),
{
    assert(old.node_wf(node));
    assert(old.node_wf(parent));
    let ks = old.kids(parent);
    let i = ks.index_of(node);
    assert(0 <= i < ks.len() && ks[i] == node);
    ks.remove_ensures(i);
    if new.kids(parent).contains(node) {
        let j = choose|j: int| 0 <= j < new.kids(parent).len() && new.kids(parent)[j] == node;
        if j < i {
            assert(ks[j] == node);
        } else {
            assert(ks[j + 1] == node);
        }
    }
}

/// Once `AppendChild` goes ahead with a document fragment, the children that the fragment
/// had follow, in order, the children that the parent had besides it; each has the parent
/// for its parent, and the fragment is left with no children.
pub proof fn law_append_moves_fragment_children(
    new: &NodeArena<ScriptView>,
    old: &NodeArena<ScriptView>,
    parent: int,
    node: AbstractNode<ScriptView>,
)
    requires
        old.wf(),
        old.valid(parent),
        old.valid(node.obj as int),
        append_outcome(new, old, parent, node),
        pre_insert_check(old, node.obj as int, parent, None) is Ok,
        is_fragment_type(old.node_at(node.obj as int).type_id),
    ensures
        new.kids(parent) == old.kids_detached(node.obj as int, parent) + old.kids(node.obj as int),
        forall|m: int| 0 <= m < old.kids(node.obj as int).len()
            ==> new.parent(#[trigger] old.kids(node.obj as int)[m]) == Some(parent),
        new.kids(node.obj as int) == Seq::<int>::empty(),
        new.first(node.obj as int) is None,
{
    let n = node.obj as int;
    let k0 = old.kids_detached(n, parent);
    let ks = old.kids(n);
    assert(spliced(k0, k0.len() as int, ks) =~= k0 + ks);
    assert(new.node_wf(n));
    assert forall|m: int| 0 <= m < ks.len() implies new.parent(#[trigger] ks[m]) == Some(parent) by {
        assert(old.node_wf(n));
        assert(old.kid_wf(n, m));
        assert(old.node_wf(ks[m]));
    }
}

/// Appending a node that had no parent and then removing it again gives back the tree
/// as it was: every node has its old parent, children and ancestors.
pub proof fn law_append_then_remove_restores(
    new: &NodeArena<ScriptView>,
    mid: &NodeArena<ScriptView>,
    old: &NodeArena<ScriptView>,
    parent: int,
    node: AbstractNode<ScriptView>,
)
    requires
        old.wf(),
        old.valid(parent),
        old.valid(node.obj as int),
        old.parent(node.obj as int) is None,
        !is_fragment_type(old.node_at(node.obj as int).type_id),
        pre_insert_check(old, node.obj as int, parent, None) is Ok,
        append_outcome(mid, old, parent, node),
        new.is_removal(mid, parent, node.obj as int),
    ensures
        new.len() == old.len(),
        forall|x: int| #![trigger new.parent(x)] old.valid(x) ==> new.parent(x) == old.parent(x),
        forall|y: int| #![trigger new.kids(y)] old.valid(y) ==> new.kids(y) == old.kids(y),
        forall|x: int| #![trigger new.anc(x)] old.valid(x) ==> new.anc(x) == old.anc(x),
{
    let n = node.obj as int;
    let ks = old.kids(parent);
    let a = old.anc(parent).insert(parent);
    assert(old.node_wf(n));
    assert(old.node_wf(parent));
    assert(!ks.contains(n)) by {
        if ks.contains(n) {
            let k = choose|k: int| 0 <= k < ks.len() && ks[k] == n;
            assert(old.kid_wf(parent, k));
        }
    }
    assert(old.kids_detached(n, parent) == ks);
    assert(ks.insert(ks.len() as int, n) =~= ks.push(n));
    let mks = ks.push(n);
    assert(mid.kids(parent) == mks);
    assert(mks.index_of(n) == ks.len()) by {
        assert(mks[ks.len() as int] == n);
        assert(mks.contains(n));
        let i = mks.index_of(n);
        assert(mks[i] == n);
        if i < ks.len() {
            assert(ks[i] == n);
        }
    }
    assert(mks.remove(ks.len() as int) =~= ks);
    assert(mid.anc(n) == a) by {
        assert(old.anc(n) =~= Set::<int>::empty());
        assert(Set::<int>::empty().union(a) =~= a);
    }
    assert forall|x: int| #![trigger new.anc(x)] old.valid(x) implies new.anc(x) == old.anc(x) by {
        assert(new.anc(x) == mid.anc_after_remove(n, x));
        if old.in_subtree(n, x) {
            assert(mid.anc(x) == old.anc(x).union(a));
            assert(mid.in_subtree(n, x));
            // No ancestor of `x` lies outside the subtree of `n`, which holds no node of `a`.
            assert forall|b: int| old.anc(x).contains(b) implies !a.contains(b) by {
                if x != n {
                    old.lemma_anc_chain(x, n, b);
                    assert(!old.anc(b).contains(n) ==> b == n);
                }
                if a.contains(b) {
                    if b == parent {
                        assert(old.in_subtree(n, parent));
                    } else {
                        assert(old.anc(parent).contains(b));
                        old.lemma_anc_trans(b, parent);
                        if b != n {
                            assert(old.anc(b).contains(n));
                        }
                        assert(old.anc(parent).contains(n));
                    }
                }
            }
            assert(old.anc(x).union(a).difference(a) =~= old.anc(x));
        } else {
            assert(mid.anc(x) == old.anc(x));
        }
    }
}

} // verus!

verus! {

/// Once `AppendChild` goes ahead, the appended node belongs to the document of the
/// parent, and so does every node of its subtree that shared the node's document (all
/// of them, when the node came from another document).
pub proof fn law_append_adopts_subtree(
    new: &NodeArena<ScriptView>,
    old: &NodeArena<ScriptView>,
    parent: int,
    node: AbstractNode<ScriptView>,
    x: int,
)
    requires
        old.wf(),
        old.valid(parent),
        old.valid(node.obj as int),
        old.valid(x),
        append_outcome(new, old, parent, node),
        pre_insert_check(old, node.obj as int, parent, None) is Ok,
        old.node_at(parent).owner_doc is Some,
        old.in_subtree(node.obj as int, x),
        old.node_at(node.obj as int).owner_doc != old.node_at(parent).owner_doc
            || old.node_at(x).owner_doc == old.node_at(node.obj as int).owner_doc,
    ensures
        new.node_at(x).owner_doc == old.node_at(parent).owner_doc,
{
    assert(old.node_wf(node.obj as int));
    assert(new.node_at(x).same_data(
        Node { owner_doc: adopted_owner(old, node.obj as int, old.node_at(parent).owner_doc->0, x), ..old.node_at(x) },
    ));
}

/// Setting the text content of a text or comment node, then reading it, gives back the
/// string that was set (an absent string reads as the empty one).
pub proof fn law_character_data_round_trip(new: &NodeArena<ScriptView>, s: int, value: DOMString)
    requires
        new.valid(s),
        is_characterdata_type(new.node_at(s).type_id),
        content_chars(new.node_at(s).content) == dom_str_chars(value),
    ensures
        text_content_of(new, s) == Some(dom_str_chars(value)),
{
}

} // verus!

verus! {

/// The owner document of a node is a document node of the arena: the handle that
/// `AbstractNode::from_document` makes of it names a node of document type.
pub proof fn law_owner_document_is_document<View>(a: &NodeArena<View>, x: int)
    requires
        a.wf(),
        a.valid(x),
        a.node_at(x).owner_doc is Some,
    ensures
        a.valid(a.node_at(x).owner_doc->0.node as int),
        is_document_type(a.node_at(a.node_at(x).owner_doc->0.node as int).type_id),
{
    assert(a.node_wf(x));
}

} // verus!

verus! {

/// Once `InsertBefore` goes ahead with a node other than a document fragment and a
/// `child` other than the node itself, the node's parent is the parent asked, and its
/// next sibling is `child`.
pub proof fn law_insert_before_places_node_before_child(
    new: &NodeArena<ScriptView>,
    old: &NodeArena<ScriptView>,
    parent: int,
    node: AbstractNode<ScriptView>,
    child: AbstractNode<ScriptView>,
)
    requires
        old.wf(),
        old.valid(parent),
        old.valid(node.obj as int),
        old.valid(child.obj as int),
        child.obj != node.obj,
        insertion_outcome(new, old, parent, node, Some(child)),
        pre_insert_check(old, node.obj as int, parent, Some(child)) is Ok,
        !is_fragment_type(old.node_at(node.obj as int).type_id),
    ensures
        new.parent(node.obj as int) == Some(parent),
        new.next(node.obj as int) == Some(child.obj as int),
{
    let n = node.obj as int;
    let c = child.obj as int;
    let k0 = old.kids_detached(n, parent);
    assert(old.node_wf(c));
    assert(old.node_wf(parent));
    let ks = old.kids(parent);
    assert(ks.contains(c));
    let kc = choose|k: int| 0 <= k < ks.len() && ks[k] == c;
    assert(k0.contains(c)) by {
        if old.parent(n) == Some(parent) {
            assert(old.node_wf(n));
            assert(ks.contains(n));
            let i = ks.index_of(n);
            assert(ks[i] == n);
            ks.remove_ensures(i);
            assert(kc != i);
            if kc < i {
                assert(k0[kc] == c);
            } else {
                assert(k0[kc - 1] == c);
            }
        }
    }
    let pos = k0.index_of(c);
    assert(0 <= pos < k0.len() && k0[pos] == c);
    assert(pos == insertion_place(old, n, parent, Some(child)));
    let nk = k0.insert(pos, n);
    k0.insert_ensures(pos, n);
    assert(new.kids(parent) == nk);
    assert(new.node_wf(parent));
    assert(new.kid_wf(parent, pos));
    assert(nk[pos + 1] == c);
}

} // verus!

verus! {

/// A read of the layout data of node `h`, after a write to it that left `data`, sees
/// `data`; the layout data of every other node is as it was before the write.
pub proof fn law_layout_read_after_write(
    new: &NodeArena<LayoutView>,
    old: &NodeArena<LayoutView>,
    h: int,
    data: LayoutData,
    y: int,
)
    requires
        old.valid(h),
        old.valid(y),
        new.data_updated(old, h, Node { layout_data: new.node_at(h).layout_data, ..old.node_at(h) }),
        new.node_at(h).layout_data@ == data,
    ensures
        new.node_at(y).layout_data@ == if y == h { data } else { old.node_at(y).layout_data@ },
{
}

} // verus!
