//! What reading a node gives: its type code, its name, its text content and its debug
//! dump, stated against the node and the tree, and which insertions are refused.
use vstd::prelude::*;
use vstd::seq_lib::lemma_flatten_concat;
use crate::node::{AbstractNode, Node, dump_of, dump_of_list, indent_chars, node_type_debug};
use crate::script::{append_outcome, node_name_chars, own_text, pre_insert_check, text_content, text_content_of, text_of, text_of_list};
use crate::tree::NodeArena;
use crate::types::{Error, NodeContent, NodeTypeId, ScriptView, node_type_code};

verus! {

/// `s` flattened is what comes before its `i`-th part, that part, then what comes after.
proof fn lemma_flatten_at<A>(s: Seq<Seq<A>>, i: int)
    requires
        0 <= i < s.len(),
    ensures
        s.flatten() == s.subrange(0, i).flatten() + s[i] + s.subrange(i + 1, s.len() as int).flatten(),
{
    let l = s.subrange(0, i);
    let m = seq![s[i]];
    let r = s.subrange(i + 1, s.len() as int);
    assert(s =~= l + (m + r));
    lemma_flatten_concat(l, m + r);
    lemma_flatten_concat(m, r);
    m.lemma_flatten_singleton();
    assert(s.flatten() =~= l.flatten() + s[i] + r.flatten());
}

/// A child of `x` has one ancestor more than `x`.
proof fn lemma_kid_depth<View>(a: &NodeArena<View>, x: int, i: int)
    requires
        a.wf(),
        a.valid(x),
        0 <= i < a.kids(x).len(),
    ensures
        a.valid(a.kids(x)[i]),
        a.anc(a.kids(x)[i]) == a.anc(x).insert(x),
        a.anc(a.kids(x)[i]).len() == a.anc(x).len() + 1,
{
    assert(a.node_wf(x));
    assert(a.kid_wf(x, i));
    assert(a.node_wf(a.kids(x)[i]));
}

} // verus!

verus! {

/// Looking deeper than the subtree of `x` goes changes nothing of its text.
proof fn lemma_text_fuel(a: &NodeArena<ScriptView>, x: int, f: nat, g: nat)
    requires
        a.wf(),
        a.valid(x),
        f + a.anc(x).len() >= a.len(),
        f <= g,
    ensures
        text_of(a, x, f) == text_of(a, x, g),
    decreases f, 0nat, 0nat,
{
    a.lemma_anc_valid(x);
    let ks = a.kids(x);
    assert forall|i: int| 0 <= i < ks.len() implies a.valid(#[trigger] ks[i]) && (f - 1) + a.anc(ks[i]).len() >= a.len() by {
        lemma_kid_depth(a, x, i);
    }
    lemma_text_list_fuel(a, ks, (f - 1) as nat, (g - 1) as nat);
}

proof fn lemma_text_list_fuel(a: &NodeArena<ScriptView>, s: Seq<int>, f: nat, g: nat)
    requires
        a.wf(),
        f <= g,
        forall|i: int| 0 <= i < s.len() ==> a.valid(#[trigger] s[i]) && f + a.anc(s[i]).len() >= a.len(),
    ensures
        text_of_list(a, s, f) == text_of_list(a, s, g),
    decreases f, 1nat, s.len(),
{
    if s.len() > 0 {
        let d = s.drop_last();
        assert forall|i: int| 0 <= i < d.len() implies a.valid(#[trigger] d[i]) && f + a.anc(d[i]).len() >= a.len() by {
            assert(d[i] == s[i]);
        }
        lemma_text_list_fuel(a, d, f, g);
        lemma_text_fuel(a, s[s.len() - 1], f, g);
    }
}

/// The text of a list of nodes is the text of each, in order.
proof fn lemma_text_list_flat(a: &NodeArena<ScriptView>, s: Seq<int>, f: nat)
    ensures
        text_of_list(a, s, f) == s.map_values(|c: int| text_of(a, c, f)).flatten_alt(),
    decreases s.len(),
{
    if s.len() > 0 {
        lemma_text_list_flat(a, s.drop_last(), f);
        assert(s.map_values(|c: int| text_of(a, c, f)).drop_last() =~= s.drop_last().map_values(|c: int| text_of(a, c, f)));
    }
}

/// The text content of a node is its own data, then that of each child in order.
proof fn lemma_text_content_split(a: &NodeArena<ScriptView>, x: int)
    requires
        a.wf(),
        a.valid(x),
    ensures
        text_content(a, x) == own_text(a, x) + a.kids(x).map_values(|c: int| text_content(a, c)).flatten(),
{
    let l = a.len();
    let ks = a.kids(x);
    a.lemma_anc_valid(x);
    let f = (l - 1) as nat;
    lemma_text_list_flat(a, ks, f);
    assert forall|i: int| 0 <= i < ks.len() implies text_of(a, #[trigger] ks[i], f) == text_content(a, ks[i]) by {
        lemma_kid_depth(a, x, i);
        lemma_text_fuel(a, ks[i], f, l);
    }
    let m1 = ks.map_values(|c: int| text_of(a, c, f));
    let m2 = ks.map_values(|c: int| text_content(a, c));
    assert(m1 =~= m2);
    m2.lemma_flatten_and_flatten_alt_are_equivalent();
}

/// The text content of a node holds, in one piece, that of each of its children.
proof fn lemma_text_content_holds_kid(a: &NodeArena<ScriptView>, q: int, i: int)
    requires
        a.wf(),
        a.valid(q),
        0 <= i < a.kids(q).len(),
    ensures
        exists|pre: Seq<char>, post: Seq<char>| text_content(a, q) == pre + text_content(a, a.kids(q)[i]) + post,
{
    lemma_text_content_split(a, q);
    let m = a.kids(q).map_values(|c: int| text_content(a, c));
    lemma_flatten_at(m, i);
    let pre = own_text(a, q) + m.subrange(0, i).flatten();
    let post = m.subrange(i + 1, m.len() as int).flatten();
    assert(m[i] == text_content(a, a.kids(q)[i]));
    assert(text_content(a, q) =~= pre + text_content(a, a.kids(q)[i]) + post);
}

/// The text content of a node holds, in one piece, that of every node of its subtree.
#[verifier::spinoff_prover]
proof fn lemma_text_content_below(a: &NodeArena<ScriptView>, p: int, y: int)
    requires
        a.wf(),
        a.valid(p),
        a.valid(y),
        a.in_subtree(p, y),
    ensures
        exists|pre: Seq<char>, post: Seq<char>| text_content(a, p) == pre + text_content(a, y) + post,
    decreases a.anc(y).len(),
{
    if y == p {
        assert(text_content(a, p) =~= Seq::<char>::empty() + text_content(a, y) + Seq::<char>::empty());
    } else {
        assert(a.node_wf(y));
        let q = a.parent(y)->0;
        assert(a.node_wf(q));
        assert(a.in_subtree(p, q));
        assert(a.anc(q).len() < a.anc(y).len()) by {
            assert(!a.anc(q).contains(q));
        }
        lemma_text_content_below(a, p, q);
        let (pre, post) = choose|pre: Seq<char>, post: Seq<char>| text_content(a, p) == pre + text_content(a, q) + post;
        let ks = a.kids(q);
        assert(ks.contains(y));
        let i = choose|i: int| 0 <= i < ks.len() && ks[i] == y;
        lemma_text_content_holds_kid(a, q, i);
        let (pre1, post1) = choose|pre1: Seq<char>, post1: Seq<char>| text_content(a, q) == pre1 + text_content(a, ks[i]) + post1;
        assert(text_content(a, p) =~= (pre + pre1) + text_content(a, y) + (post1 + post));
    }
}

/// The text content of an element or a document fragment is the text content of its
/// children, one after the other, in the order of the child list.
pub proof fn law_text_content_is_children_in_order(a: &NodeArena<ScriptView>, p: int)
    requires
        a.wf(),
        a.valid(p),
        a.node_at(p).type_id is ElementNodeTypeId || a.node_at(p).type_id is DocumentFragmentNodeTypeId,
    ensures
        text_content_of(a, p) == Some(a.kids(p).map_values(|c: int| text_content(a, c)).flatten()),
{
    lemma_text_content_split(a, p);
    assert(own_text(a, p) + a.kids(p).map_values(|c: int| text_content(a, c)).flatten()
        =~= a.kids(p).map_values(|c: int| text_content(a, c)).flatten());
}

/// A node without children gives to the text content of its ancestors its data if it is
/// a text node, and nothing otherwise.
pub proof fn law_text_content_of_leaf(a: &NodeArena<ScriptView>, x: int)
    requires
        a.wf(),
        a.valid(x),
        a.kids(x).len() == 0,
    ensures
        text_content(a, x) == match a.node_at(x).content {
            NodeContent::Text(t) => if a.node_at(x).type_id is TextNodeTypeId { t.element.data@ } else { Seq::empty() },
            _ => Seq::<char>::empty(),
        },
{
    assert(a.node_wf(x));
    lemma_text_content_split(a, x);
    assert(a.kids(x).map_values(|c: int| text_content(a, c)) =~= Seq::<Seq<char>>::empty());
}

/// The data of every text node below an element or a document fragment appears, in one
/// piece, in the text content of that node, whatever the kinds of the nodes between.
pub proof fn law_text_content_holds_descendant_text(a: &NodeArena<ScriptView>, p: int, t: int)
    requires
        a.wf(),
        a.valid(p),
        a.valid(t),
        a.node_at(p).type_id is ElementNodeTypeId || a.node_at(p).type_id is DocumentFragmentNodeTypeId,
        a.node_at(t).type_id is TextNodeTypeId,
        a.anc(t).contains(p),
    ensures
        exists|pre: Seq<char>, post: Seq<char>|
            text_content_of(a, p) == Some(pre + a.node_at(t).content->Text_0.element.data@ + post),
{
    assert(a.node_wf(t));
    lemma_text_content_below(a, p, t);
    let (pre, post) = choose|pre: Seq<char>, post: Seq<char>| text_content(a, p) == pre + text_content(a, t) + post;
    lemma_text_content_split(a, t);
    let rest = a.kids(t).map_values(|c: int| text_content(a, c)).flatten();
    assert(text_content(a, p) =~= pre + a.node_at(t).content->Text_0.element.data@ + (rest + post));
}

} // verus!

verus! {

/// Looking deeper than the subtree of `x` goes changes nothing of its dump.
proof fn lemma_dump_fuel<View>(a: &NodeArena<View>, x: int, indent: nat, f: nat, g: nat)
    requires
        a.wf(),
        a.valid(x),
        f + a.anc(x).len() >= a.len(),
        f <= g,
    ensures
        dump_of(a, x, indent, f) == dump_of(a, x, indent, g),
    decreases f, 0nat, 0nat,
{
    a.lemma_anc_valid(x);
    let ks = a.kids(x);
    assert forall|i: int| 0 <= i < ks.len() implies a.valid(#[trigger] ks[i]) && (f - 1) + a.anc(ks[i]).len() >= a.len() by {
        lemma_kid_depth(a, x, i);
    }
    lemma_dump_list_fuel(a, ks, indent + 1, (f - 1) as nat, (g - 1) as nat);
}

proof fn lemma_dump_list_fuel<View>(a: &NodeArena<View>, s: Seq<int>, indent: nat, f: nat, g: nat)
    requires
        a.wf(),
        f <= g,
        forall|i: int| 0 <= i < s.len() ==> a.valid(#[trigger] s[i]) && f + a.anc(s[i]).len() >= a.len(),
    ensures
        dump_of_list(a, s, indent, f) == dump_of_list(a, s, indent, g),
    decreases f, 1nat, s.len(),
{
    if s.len() > 0 {
        let d = s.drop_last();
        assert forall|i: int| 0 <= i < d.len() implies a.valid(#[trigger] d[i]) && f + a.anc(d[i]).len() >= a.len() by {
            assert(d[i] == s[i]);
        }
        lemma_dump_list_fuel(a, d, indent, f, g);
        lemma_dump_fuel(a, s[s.len() - 1], indent, f, g);
    }
}

/// The dump of a list of nodes is the dump of each, in order.
proof fn lemma_dump_list_flat<View>(a: &NodeArena<View>, s: Seq<int>, indent: nat, f: nat)
    ensures
        dump_of_list(a, s, indent, f) == s.map_values(|c: int| dump_of(a, c, indent, f)).flatten_alt(),
    decreases s.len(),
{
    if s.len() > 0 {
        lemma_dump_list_flat(a, s.drop_last(), indent, f);
        assert(s.map_values(|c: int| dump_of(a, c, indent, f)).drop_last()
            =~= s.drop_last().map_values(|c: int| dump_of(a, c, indent, f)));
    }
}

/// The dump of a node is its own line, then the dumps of its children one step further
/// in, in the order of the child list, first child first.
pub proof fn law_dump_is_line_then_children_in_order<View>(a: &NodeArena<View>, x: int, indent: nat)
    requires
        a.wf(),
        a.valid(x),
    ensures
        dump_of(a, x, indent, a.len()) == seq![indent_chars(indent) + node_type_debug(a.node_at(x).type_id)]
            + a.kids(x).map_values(|c: int| dump_of(a, c, indent + 1, a.len())).flatten(),
{
    let l = a.len();
    let ks = a.kids(x);
    a.lemma_anc_valid(x);
    let f = (l - 1) as nat;
    lemma_dump_list_flat(a, ks, indent + 1, f);
    assert forall|i: int| 0 <= i < ks.len() implies dump_of(a, #[trigger] ks[i], indent + 1, f)
        == dump_of(a, ks[i], indent + 1, l) by {
        lemma_kid_depth(a, x, i);
        lemma_dump_fuel(a, ks[i], indent + 1, f, l);
    }
    let m1 = ks.map_values(|c: int| dump_of(a, c, indent + 1, f));
    let m2 = ks.map_values(|c: int| dump_of(a, c, indent + 1, l));
    assert(m1 =~= m2);
    m2.lemma_flatten_and_flatten_alt_are_equivalent();
}

/// In the dump of a node with children, the line after the node's own is that of its
/// first child, one step further in.
pub proof fn law_dump_second_line_is_first_child<View>(a: &NodeArena<View>, x: int, indent: nat)
    requires
        a.wf(),
        a.valid(x),
        a.kids(x).len() > 0,
    ensures
        dump_of(a, x, indent, a.len()).len() >= 2,
        dump_of(a, x, indent, a.len())[1] == indent_chars(indent + 1) + node_type_debug(a.node_at(a.kids(x)[0]).type_id),
{
    law_dump_is_line_then_children_in_order(a, x, indent);
    let c = a.kids(x)[0];
    lemma_kid_depth(a, x, 0);
    law_dump_is_line_then_children_in_order(a, c, indent + 1);
    let m = a.kids(x).map_values(|k: int| dump_of(a, k, indent + 1, a.len()));
    lemma_flatten_at(m, 0);
    assert(m.subrange(0, 0).flatten() =~= Seq::<Seq<Seq<char>>>::empty().flatten());
    assert(Seq::<Seq<Seq<char>>>::empty().flatten() =~= Seq::<Seq<char>>::empty());
    assert(m[0] == dump_of(a, c, indent + 1, a.len()));
}

} // verus!

verus! {

/// `nodeType` tells the kinds of node apart: 1 for every element, whatever its kind, 3
/// for text, 8 for comments, 9 for documents, 10 for document types and 11 for document
/// fragments.
pub proof fn law_node_type_codes(t: NodeTypeId)
    ensures
        (node_type_code(t) == 1) == (t is ElementNodeTypeId),
        (node_type_code(t) == 3) == (t is TextNodeTypeId),
        (node_type_code(t) == 8) == (t is CommentNodeTypeId),
        (node_type_code(t) == 9) == (t is DocumentNodeTypeId),
        (node_type_code(t) == 10) == (t is DoctypeNodeTypeId),
        (node_type_code(t) == 11) == (t is DocumentFragmentNodeTypeId),
{
}

/// `nodeName` is the tag name of every element, whatever its kind, the name of a
/// document type, and a fixed name for the other kinds of node.
pub proof fn law_node_name(n: Node<ScriptView>)
    requires
        n.wf(),
    ensures
        n.type_id is ElementNodeTypeId ==> node_name_chars(n) == n.content->Element_0.tag_name@,
        n.type_id is DoctypeNodeTypeId ==> node_name_chars(n) == n.content->Doctype_0.name@,
        n.type_id is TextNodeTypeId ==> node_name_chars(n) == "#text"@,
        n.type_id is CommentNodeTypeId ==> node_name_chars(n) == "#comment"@,
        n.type_id is DocumentFragmentNodeTypeId ==> node_name_chars(n) == "#document-fragment"@,
        n.type_id is DocumentNodeTypeId ==> node_name_chars(n) == "#document"@,
{
}

} // verus!

verus! {

/// The insertions that `pre_insert` refuses, and with which error: under a node that is
/// no document, fragment or element, or under `node` itself or one of its descendants
/// (`HierarchyRequest`); before a `child` that is not a child of the parent
/// (`NotFound`); a document; a text node under a document; a document type under
/// anything but a document (`HierarchyRequest`). Every other insertion goes ahead: a
/// comment, an element or a fragment may go under a document.
pub proof fn law_pre_insert_refusals(
    a: &NodeArena<ScriptView>,
    node: int,
    parent: int,
    child: Option<AbstractNode<ScriptView>>,
)
    ensures
        pre_insert_check(a, node, parent, child) == {
            let pt = a.node_at(parent).type_id;
            let nt = a.node_at(node).type_id;
            if !(pt is DocumentNodeTypeId || pt is DocumentFragmentNodeTypeId || pt is ElementNodeTypeId)
                || node == parent || a.anc(parent).contains(node) {
                Err(Error::HierarchyRequest)
            } else if child is Some && a.parent(child->0.obj as int) != Some(parent) {
                Err(Error::NotFound)
            } else if nt is DocumentNodeTypeId
                || (nt is TextNodeTypeId && pt is DocumentNodeTypeId)
                || (nt is DoctypeNodeTypeId && !(pt is DocumentNodeTypeId)) {
                Err(Error::HierarchyRequest)
            } else {
                Ok(())
            }
        },
{
}

/// Appending a comment to a document that it does not contain goes ahead: the comment
/// becomes the last child of the document.
pub proof fn law_comment_goes_under_document(
    new: &NodeArena<ScriptView>,
    old: &NodeArena<ScriptView>,
    parent: int,
    node: AbstractNode<ScriptView>,
)
    requires
        old.wf(),
        old.valid(parent),
        old.valid(node.obj as int),
        old.node_at(parent).type_id is DocumentNodeTypeId,
        old.node_at(node.obj as int).type_id is CommentNodeTypeId,
        !old.anc(parent).contains(node.obj as int),
        append_outcome(new, old, parent, node),
    ensures
        pre_insert_check(old, node.obj as int, parent, None) is Ok,
        new.parent(node.obj as int) == Some(parent),
        new.kids(parent) == old.kids_detached(node.obj as int, parent).push(node.obj as int),
{
    law_pre_insert_refusals(old, node.obj as int, parent, None);
    crate::laws::law_append_makes_last_child(new, old, parent, node);
}

} // verus!
