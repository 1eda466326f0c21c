use vstd::prelude::*;
use core::marker::PhantomData;
use crate::layout::NodeLayoutData;
use crate::tree::NodeArena;
use crate::types::{
    AbstractDocument, DocumentTypeId, ElementTypeId, NodeContent, NodeTypeId, ScriptView, content_fits,
    is_characterdata_type, is_comment_type, is_doctype_type, is_document_type, is_element_type,
    is_text_type,
};

verus! {

/// A handle on a node: its place in the node arena. `View` says which task looks at the
/// node through it (`ScriptView` or `LayoutView`).
pub struct AbstractNode<View> {
    pub obj: usize,
    pub view: PhantomData<View>,
}

impl<View> Clone for AbstractNode<View> {
    fn clone(&self) -> (r: Self)
        ensures
            r == *self,
    {
        AbstractNode { obj: self.obj, view: PhantomData }
    }
}

impl<View> Copy for AbstractNode<View> {
}

/// The place in the arena that an optional handle names.
pub open spec fn link<View>(o: Option<AbstractNode<View>>) -> Option<int> {
    match o {
        Some(a) => Some(a.obj as int),
        None => None,
    }
}

/// The live list of children that `childNodes` returns: it lists the children of `root`.
#[derive(Clone, Copy)]
pub struct NodeList {
    pub root: AbstractNode<ScriptView>,
}

impl NodeList {
    /// The list of the children of `root`.
    pub fn new_child_list(root: AbstractNode<ScriptView>) -> (r: NodeList)
        ensures
            r.root == root,
    {
        NodeList { root }
    }
}

/// An HTML node.
///
/// `View` says which task looks at the node: the script task or the layout task.
pub struct Node<View> {
    /// The type of node that this is.
    pub type_id: NodeTypeId,
    /// The parent of this node.
    pub parent_node: Option<AbstractNode<View>>,
    /// The first child of this node.
    pub first_child: Option<AbstractNode<View>>,
    /// The last child of this node.
    pub last_child: Option<AbstractNode<View>>,
    /// The next sibling of this node.
    pub next_sibling: Option<AbstractNode<View>>,
    /// The previous sibling of this node.
    pub prev_sibling: Option<AbstractNode<View>>,
    /// The document that this node belongs to.
    pub owner_doc: Option<AbstractDocument>,
    /// The live list of children returned by `childNodes`.
    pub child_list: Option<NodeList>,
    /// Layout information. Only the layout task may touch this data.
    pub layout_data: NodeLayoutData,
    /// What the node carries by its kind: character data, an element's tag name, ...
    pub content: NodeContent,
}

impl<View> Node<View> {
    /// The node's content is that of its type.
    pub open spec fn wf(&self) -> bool {
        content_fits(self.type_id, self.content)
    }

    /// The node has no links to other nodes.
    pub open spec fn unlinked(&self) -> bool {
        &&& self.parent_node is None
        &&& self.first_child is None
        &&& self.last_child is None
        &&& self.next_sibling is None
        &&& self.prev_sibling is None
    }

    /// `self` and `other` carry the same data, their links aside.
    pub open spec fn same_data(&self, other: Node<View>) -> bool {
        &&& self.type_id == other.type_id
        &&& self.owner_doc == other.owner_doc
        &&& self.child_list == other.child_list
        &&& self.layout_data == other.layout_data
        &&& self.content == other.content
    }
}

} // verus!

verus! {

/// The handle on the node in place `i`.
pub open spec fn handle<View>(i: int) -> AbstractNode<View> {
    AbstractNode { obj: i as usize, view: PhantomData }
}

/// The places that a sequence of handles names.
pub open spec fn ids<View>(s: Seq<AbstractNode<View>>) -> Seq<int> {
    s.map_values(|a: AbstractNode<View>| a.obj as int)
}

/// Walks the children of a node, from the first to the last.
pub struct AbstractNodeChildrenIterator<View> {
    pub current_node: Option<AbstractNode<View>>,
}

impl<View> AbstractNodeChildrenIterator<View> {
    /// The child that comes next, if any; the walk moves on to its next sibling.
    pub fn next(&mut self, arena: &NodeArena<View>) -> (r: Option<AbstractNode<View>>)
        requires
            arena.wf(),
            old(self).current_node matches Some(c) ==> arena.valid(c.obj as int),
        ensures
            r == old(self).current_node,
            final(self).current_node == match r {
                Some(c) => arena.node_at(c.obj as int).next_sibling,
                None => None,
            },
            final(self).current_node matches Some(c) ==> arena.valid(c.obj as int),
    {
        let node = self.current_node;
        match node {
            Some(n) => {
                proof {
                    assert(arena.node_wf(n.obj as int));
                    if let Some(p) = arena.parent(n.obj as int) {
                        assert(arena.node_wf(p));
                        let k = choose|k: int| 0 <= k < arena.kids(p).len() && arena.kids(p)[k] == n.obj;
                        assert(arena.kid_wf(p, k));
                        if k + 1 < arena.kids(p).len() {
                            assert(arena.kid_wf(p, k + 1));
                        }
                    }
                }
                self.current_node = arena.get(n).next_sibling;
            },
            None => {},
        }
        node
    }

    /// The children that the walk has yet to give, in order.
    pub fn collect(self, arena: &NodeArena<View>) -> (r: Vec<AbstractNode<View>>)
        requires
            arena.wf(),
            self.current_node matches Some(c) ==> arena.valid(c.obj as int),
        ensures
            ids(r@) == match self.current_node {
                Some(c) => arena.siblings_from(c.obj as int),
                None => Seq::<int>::empty(),
            },
    {
        let ghost target = match self.current_node {
            Some(c) => arena.siblings_from(c.obj as int),
            None => Seq::<int>::empty(),
        };
        let mut it = self;
        let mut out: Vec<AbstractNode<View>> = Vec::new();
        loop
            invariant
                arena.wf(),
                it.current_node matches Some(c) ==> arena.valid(c.obj as int),
                ids(out@) + match it.current_node {
                    Some(c) => arena.siblings_from(c.obj as int),
                    None => Seq::<int>::empty(),
                } == target,
                target == match self.current_node {
                    Some(c) => arena.siblings_from(c.obj as int),
                    None => Seq::<int>::empty(),
                },
            decreases
                match it.current_node {
                    Some(c) => arena.siblings_from(c.obj as int).len(),
                    None => 0,
                },
        {
            let ghost before = it.current_node;
            proof {
                if let Some(c) = before {
                    arena.lemma_siblings_from_step(c.obj as int);
                }
            }
            match it.next(arena) {
                Some(n) => {
                    out.push(n);
                    proof {
                        assert(ids(out@) =~= ids(out@.drop_last()).push(n.obj as int));
                    }
                },
                None => {
                    assert(ids(out@) + Seq::<int>::empty() =~= ids(out@));
                    return out;
                },
            }
        }
    }
}

} // verus!

verus! {

impl<View> AbstractNode<View> {
    /// The handle on the node in place `raw`.
    pub fn from_raw(raw: usize) -> (r: AbstractNode<View>)
        ensures
            r.obj == raw,
    {
        AbstractNode { obj: raw, view: PhantomData }
    }

    /// The place of the node.
    pub fn raw_object(self) -> (r: usize)
        ensures
            r == self.obj,
    {
        self.obj
    }

    /// The node of a document. In a well-formed arena the owner document of every node
    /// names a node of document type (see `law_owner_document_is_document`).
    pub fn from_document(doc: AbstractDocument) -> (r: AbstractNode<View>)
        ensures
            r.obj == doc.node,
    {
        AbstractNode { obj: doc.node, view: PhantomData }
    }

    /// The node that this handle names.
    pub fn node(self, arena: &NodeArena<View>) -> (r: &Node<View>)
        requires
            arena.valid(self.obj as int),
        ensures
            *r == arena.node_at(self.obj as int),
    {
        arena.get(self)
    }

    /// Returns the type ID of this node.
    pub fn type_id(self, arena: &NodeArena<View>) -> (r: NodeTypeId)
        requires
            arena.valid(self.obj as int),
        ensures
            r == arena.node_at(self.obj as int).type_id,
    {
        arena.get(self).type_id
    }

    /// Returns the parent node of this node.
    pub fn parent_node(self, arena: &NodeArena<View>) -> (r: Option<AbstractNode<View>>)
        requires
            arena.valid(self.obj as int),
        ensures
            r == arena.node_at(self.obj as int).parent_node,
    {
        arena.get(self).parent_node
    }

    /// Returns the first child of this node.
    pub fn first_child(self, arena: &NodeArena<View>) -> (r: Option<AbstractNode<View>>)
        requires
            arena.valid(self.obj as int),
        ensures
            r == arena.node_at(self.obj as int).first_child,
    {
        arena.get(self).first_child
    }

    /// Returns the last child of this node.
    pub fn last_child(self, arena: &NodeArena<View>) -> (r: Option<AbstractNode<View>>)
        requires
            arena.valid(self.obj as int),
        ensures
            r == arena.node_at(self.obj as int).last_child,
    {
        arena.get(self).last_child
    }

    /// Returns the previous sibling of this node.
    pub fn prev_sibling(self, arena: &NodeArena<View>) -> (r: Option<AbstractNode<View>>)
        requires
            arena.valid(self.obj as int),
        ensures
            r == arena.node_at(self.obj as int).prev_sibling,
    {
        arena.get(self).prev_sibling
    }

    /// Returns the next sibling of this node.
    pub fn next_sibling(self, arena: &NodeArena<View>) -> (r: Option<AbstractNode<View>>)
        requires
            arena.valid(self.obj as int),
        ensures
            r == arena.node_at(self.obj as int).next_sibling,
    {
        arena.get(self).next_sibling
    }

    /// Is this node a root?
    pub fn is_root(self, arena: &NodeArena<View>) -> (r: bool)
        requires
            arena.valid(self.obj as int),
        ensures
            r == (arena.parent(self.obj as int) is None),
    {
        self.parent_node(arena).is_none()
    }

    pub fn is_element(self, arena: &NodeArena<View>) -> (r: bool)
        requires
            arena.valid(self.obj as int),
        ensures
            r == is_element_type(arena.node_at(self.obj as int).type_id),
    {
        match self.type_id(arena) {
            NodeTypeId::ElementNodeTypeId(_) => true,
            _ => false,
        }
    }

    pub fn is_characterdata(self, arena: &NodeArena<View>) -> (r: bool)
        requires
            arena.valid(self.obj as int),
        ensures
            r == is_characterdata_type(arena.node_at(self.obj as int).type_id),
    {
        self.is_text(arena) || self.is_comment(arena)
    }

    pub fn is_doctype(self, arena: &NodeArena<View>) -> (r: bool)
        requires
            arena.valid(self.obj as int),
        ensures
            r == is_doctype_type(arena.node_at(self.obj as int).type_id),
    {
        self.type_id(arena) == NodeTypeId::DoctypeNodeTypeId
    }

    pub fn is_comment(self, arena: &NodeArena<View>) -> (r: bool)
        requires
            arena.valid(self.obj as int),
        ensures
            r == is_comment_type(arena.node_at(self.obj as int).type_id),
    {
        self.type_id(arena) == NodeTypeId::CommentNodeTypeId
    }

    pub fn is_text(self, arena: &NodeArena<View>) -> (r: bool)
        requires
            arena.valid(self.obj as int),
        ensures
            r == is_text_type(arena.node_at(self.obj as int).type_id),
    {
        self.type_id(arena) == NodeTypeId::TextNodeTypeId
    }

    pub fn is_document(self, arena: &NodeArena<View>) -> (r: bool)
        requires
            arena.valid(self.obj as int),
        ensures
            r == is_document_type(arena.node_at(self.obj as int).type_id),
    {
        match self.type_id(arena) {
            NodeTypeId::DocumentNodeTypeId(_) => true,
            _ => false,
        }
    }

    pub fn is_image_element(self, arena: &NodeArena<View>) -> (r: bool)
        requires
            arena.valid(self.obj as int),
        ensures
            r == (arena.node_at(self.obj as int).type_id == NodeTypeId::ElementNodeTypeId(
                ElementTypeId::HTMLImageElementTypeId,
            )),
    {
        self.type_id(arena) == NodeTypeId::ElementNodeTypeId(ElementTypeId::HTMLImageElementTypeId)
    }

    pub fn is_iframe_element(self, arena: &NodeArena<View>) -> (r: bool)
        requires
            arena.valid(self.obj as int),
        ensures
            r == (arena.node_at(self.obj as int).type_id == NodeTypeId::ElementNodeTypeId(
                ElementTypeId::HTMLIframeElementTypeId,
            )),
    {
        self.type_id(arena) == NodeTypeId::ElementNodeTypeId(ElementTypeId::HTMLIframeElementTypeId)
    }

    pub fn is_style_element(self, arena: &NodeArena<View>) -> (r: bool)
        requires
            arena.valid(self.obj as int),
        ensures
            r == (arena.node_at(self.obj as int).type_id == NodeTypeId::ElementNodeTypeId(
                ElementTypeId::HTMLStyleElementTypeId,
            )),
    {
        self.type_id(arena) == NodeTypeId::ElementNodeTypeId(ElementTypeId::HTMLStyleElementTypeId)
    }

    /// Walks the children of this node.
    pub fn children(&self, arena: &NodeArena<View>) -> (r: AbstractNodeChildrenIterator<View>)
        requires
            arena.wf(),
            arena.valid(self.obj as int),
        ensures
            r.current_node == arena.node_at(self.obj as int).first_child,
            r.current_node matches Some(c) ==> arena.valid(c.obj as int),
            match r.current_node {
                Some(c) => arena.siblings_from(c.obj as int),
                None => Seq::<int>::empty(),
            } == arena.kids(self.obj as int),
    {
        proof {
            arena.lemma_first_child_siblings(self.obj as int);
            if arena.first(self.obj as int) is None {
                assert(arena.kids(self.obj as int) =~= Seq::<int>::empty());
            }
        }
        AbstractNodeChildrenIterator { current_node: self.first_child(arena) }
    }

    /// The ancestors of this node, its parent first, then the parent's parent, and so on.
    pub fn ancestors(&self, arena: &NodeArena<View>) -> (r: Vec<AbstractNode<View>>)
        requires
            arena.wf(),
            arena.valid(self.obj as int),
        ensures
            forall|a: int| arena.anc(self.obj as int).contains(a) <==> #[trigger] ids(r@).contains(a),
            forall|k: int| 0 <= k < r@.len() ==> arena.valid(#[trigger] r@[k].obj as int),
            r@.len() == 0 <==> arena.parent(self.obj as int) is None,
            r@.len() > 0 ==> arena.parent(self.obj as int) == Some(r@[0].obj as int),
            forall|k: int| 0 < k < r@.len() ==> arena.parent(#[trigger] r@[k - 1].obj as int) == Some(r@[k].obj as int),
            r@.len() > 0 ==> arena.parent(r@[r@.len() - 1].obj as int) is None,
    {
        let ghost me = self.obj as int;
        let ghost mut seen: Set<int> = Set::empty();
        let mut out: Vec<AbstractNode<View>> = Vec::new();
        let mut cur = self.parent_node(arena);
        proof {
            assert(arena.node_wf(me));
        }
        while cur.is_some()
            invariant
                arena.wf(),
                arena.valid(me),
                me == self.obj as int,
                cur matches Some(a) ==> arena.valid(a.obj as int),
                arena.anc(me) == seen + match cur {
                    Some(a) => arena.anc(a.obj as int).insert(a.obj as int),
                    None => Set::<int>::empty(),
                },
                forall|a: int| seen.contains(a) <==> #[trigger] ids(out@).contains(a),
                forall|k: int| 0 <= k < out@.len() ==> arena.valid(#[trigger] out@[k].obj as int),
                out@.len() == 0 ==> link(cur) == arena.parent(me),
                out@.len() > 0 ==> arena.parent(me) == Some(out@[0].obj as int),
                out@.len() > 0 ==> link(cur) == arena.parent(out@[out@.len() - 1].obj as int),
                forall|k: int| 0 < k < out@.len() ==> arena.parent(#[trigger] out@[k - 1].obj as int) == Some(out@[k].obj as int),
            decreases
                match cur {
                    Some(a) => arena.anc(a.obj as int).len() + 1,
                    None => 0,
                },
        {
            let a = cur.unwrap();
            proof {
                assert(arena.node_wf(a.obj as int));
                if let Some(p) = arena.parent(a.obj as int) {
                    assert(arena.node_wf(p));
                    assert(!arena.anc(p).contains(p));
                }
            }
            let ghost before = ids(out@);
            let ghost seen0 = seen;
            out.push(a);
            proof {
                assert(ids(out@) =~= before.push(a.obj as int));
                seen = seen.insert(a.obj as int);
                assert forall|x: int| seen.contains(x) <==> #[trigger] ids(out@).contains(x) by {
                    if x == a.obj as int {
                        assert(ids(out@)[before.len() as int] == x);
                    } else {
                        if ids(out@).contains(x) {
                            let k = choose|k: int| 0 <= k < ids(out@).len() && ids(out@)[k] == x;
                            assert(before[k] == x);
                            assert(before.contains(x));
                        }
                        if seen0.contains(x) {
                            assert(before.contains(x));
                            let k = choose|k: int| 0 <= k < before.len() && before[k] == x;
                            assert(ids(out@)[k] == x);
                        }
                    }
                }
                assert(arena.anc(me) =~= seen + match arena.parent(a.obj as int) {
                    Some(p) => arena.anc(p).insert(p),
                    None => Set::<int>::empty(),
                });
            }
            cur = a.parent_node(arena);
        }
        proof {
            assert(arena.anc(me) =~= seen);
        }
        out
    }

    /// Whether some ancestor of this node is a document.
    pub fn is_in_doc(&self, arena: &NodeArena<View>) -> (r: bool)
        requires
            arena.wf(),
            arena.valid(self.obj as int),
        ensures
            r == exists|a: int| #[trigger] arena.anc(self.obj as int).contains(a)
                && is_document_type(arena.node_at(a).type_id),
    {
        let ancestors = self.ancestors(arena);
        let mut k: usize = 0;
        while k < ancestors.len()
            invariant
                k <= ancestors@.len(),
                forall|a: int| arena.anc(self.obj as int).contains(a) <==> #[trigger] ids(ancestors@).contains(a),
                forall|m: int| 0 <= m < ancestors@.len() ==> arena.valid(#[trigger] ancestors@[m].obj as int),
                forall|m: int| 0 <= m < k ==> !is_document_type(arena.node_at(#[trigger] ancestors@[m].obj as int).type_id),
            decreases ancestors@.len() - k,
        {
            if ancestors[k].is_document(arena) {
                proof {
                    let a = ancestors@[k as int].obj as int;
                    assert(ids(ancestors@)[k as int] == a);
                    assert(is_document_type(arena.node_at(a).type_id));
                    assert(ids(ancestors@).contains(a));
                    assert(arena.anc(self.obj as int).contains(a));
                }
                return true;
            }
            k = k + 1;
        }
        proof {
            assert forall|a: int| #[trigger] arena.anc(self.obj as int).contains(a) implies !is_document_type(arena.node_at(a).type_id) by {
                assert(ids(ancestors@).contains(a));
                let m = choose|m: int| 0 <= m < ids(ancestors@).len() && ids(ancestors@)[m] == a;
                assert(ancestors@[m].obj as int == a);
            }
        }
        false
    }
}

} // verus!

verus! {

/// The name of a kind of element, as the debug output writes it.
pub open spec fn element_type_name(e: ElementTypeId) -> Seq<char> {
    match e {
        ElementTypeId::HTMLElementTypeId => "HTMLElementTypeId"@,
        ElementTypeId::HTMLAnchorElementTypeId => "HTMLAnchorElementTypeId"@,
        ElementTypeId::HTMLBodyElementTypeId => "HTMLBodyElementTypeId"@,
        ElementTypeId::HTMLDivElementTypeId => "HTMLDivElementTypeId"@,
        ElementTypeId::HTMLHeadElementTypeId => "HTMLHeadElementTypeId"@,
        ElementTypeId::HTMLHtmlElementTypeId => "HTMLHtmlElementTypeId"@,
        ElementTypeId::HTMLIframeElementTypeId => "HTMLIframeElementTypeId"@,
        ElementTypeId::HTMLImageElementTypeId => "HTMLImageElementTypeId"@,
        ElementTypeId::HTMLParagraphElementTypeId => "HTMLParagraphElementTypeId"@,
        ElementTypeId::HTMLScriptElementTypeId => "HTMLScriptElementTypeId"@,
        ElementTypeId::HTMLSpanElementTypeId => "HTMLSpanElementTypeId"@,
        ElementTypeId::HTMLStyleElementTypeId => "HTMLStyleElementTypeId"@,
        ElementTypeId::HTMLTitleElementTypeId => "HTMLTitleElementTypeId"@,
        ElementTypeId::HTMLUnknownElementTypeId => "HTMLUnknownElementTypeId"@,
    }
}

/// The name of a kind of document, as the debug output writes it.
pub open spec fn document_type_name(d: DocumentTypeId) -> Seq<char> {
    match d {
        DocumentTypeId::PlainDocumentTypeId => "PlainDocumentTypeId"@,
        DocumentTypeId::HTMLDocumentTypeId => "HTMLDocumentTypeId"@,
    }
}

/// The type of a node, as the debug output writes it.
pub open spec fn node_type_debug(t: NodeTypeId) -> Seq<char> {
    match t {
        NodeTypeId::DoctypeNodeTypeId => "DoctypeNodeTypeId"@,
        NodeTypeId::DocumentFragmentNodeTypeId => "DocumentFragmentNodeTypeId"@,
        NodeTypeId::CommentNodeTypeId => "CommentNodeTypeId"@,
        NodeTypeId::DocumentNodeTypeId(d) => "DocumentNodeTypeId("@ + document_type_name(d) + ")"@,
        NodeTypeId::ElementNodeTypeId(e) => "ElementNodeTypeId("@ + element_type_name(e) + ")"@,
        NodeTypeId::TextNodeTypeId => "TextNodeTypeId"@,
    }
}

fn element_type_name_string(e: ElementTypeId) -> (r: String)
    ensures
        r@ == element_type_name(e),
{
    match e {
        ElementTypeId::HTMLElementTypeId => String::from_str("HTMLElementTypeId"),
        ElementTypeId::HTMLAnchorElementTypeId => String::from_str("HTMLAnchorElementTypeId"),
        ElementTypeId::HTMLBodyElementTypeId => String::from_str("HTMLBodyElementTypeId"),
        ElementTypeId::HTMLDivElementTypeId => String::from_str("HTMLDivElementTypeId"),
        ElementTypeId::HTMLHeadElementTypeId => String::from_str("HTMLHeadElementTypeId"),
        ElementTypeId::HTMLHtmlElementTypeId => String::from_str("HTMLHtmlElementTypeId"),
        ElementTypeId::HTMLIframeElementTypeId => String::from_str("HTMLIframeElementTypeId"),
        ElementTypeId::HTMLImageElementTypeId => String::from_str("HTMLImageElementTypeId"),
        ElementTypeId::HTMLParagraphElementTypeId => String::from_str("HTMLParagraphElementTypeId"),
        ElementTypeId::HTMLScriptElementTypeId => String::from_str("HTMLScriptElementTypeId"),
        ElementTypeId::HTMLSpanElementTypeId => String::from_str("HTMLSpanElementTypeId"),
        ElementTypeId::HTMLStyleElementTypeId => String::from_str("HTMLStyleElementTypeId"),
        ElementTypeId::HTMLTitleElementTypeId => String::from_str("HTMLTitleElementTypeId"),
        ElementTypeId::HTMLUnknownElementTypeId => String::from_str("HTMLUnknownElementTypeId"),
    }
}

fn document_type_name_string(d: DocumentTypeId) -> (r: String)
    ensures
        r@ == document_type_name(d),
{
    match d {
        DocumentTypeId::PlainDocumentTypeId => String::from_str("PlainDocumentTypeId"),
        DocumentTypeId::HTMLDocumentTypeId => String::from_str("HTMLDocumentTypeId"),
    }
}

/// The type of a node, as the debug output writes it.
pub fn node_type_debug_string(t: NodeTypeId) -> (r: String)
    ensures
        r@ == node_type_debug(t),
{
    match t {
        NodeTypeId::DoctypeNodeTypeId => String::from_str("DoctypeNodeTypeId"),
        NodeTypeId::DocumentFragmentNodeTypeId => String::from_str("DocumentFragmentNodeTypeId"),
        NodeTypeId::CommentNodeTypeId => String::from_str("CommentNodeTypeId"),
        NodeTypeId::DocumentNodeTypeId(d) => {
            let mut s = String::from_str("DocumentNodeTypeId(");
            s.append(document_type_name_string(d).as_str());
            s.append(")");
            s
        },
        NodeTypeId::ElementNodeTypeId(e) => {
            let mut s = String::from_str("ElementNodeTypeId(");
            s.append(element_type_name_string(e).as_str());
            s.append(")");
            s
        },
        NodeTypeId::TextNodeTypeId => String::from_str("TextNodeTypeId"),
    }
}

/// `n` steps of indentation, four spaces each.
pub open spec fn indent_chars(n: nat) -> Seq<char>
    decreases n,
{
    if n == 0 {
        Seq::empty()
    } else {
        indent_chars((n - 1) as nat) + "    "@
    }
}

/// The lines that dumping the subtree of `x` writes, at indentation `indent`, looking at
/// most `fuel` levels deep: one line for `x`, then those of its children, one step
/// further in.
pub open spec fn dump_of<View>(a: &NodeArena<View>, x: int, indent: nat, fuel: nat) -> Seq<Seq<char>>
    decreases fuel, 0nat, 0nat,
{
    if fuel == 0 {
        Seq::empty()
    } else {
        seq![indent_chars(indent) + node_type_debug(a.node_at(x).type_id)]
            + dump_of_list(a, a.kids(x), indent + 1, (fuel - 1) as nat)
    }
}

/// The lines that dumping the subtrees of the nodes of `s`, in order, writes.
pub open spec fn dump_of_list<View>(a: &NodeArena<View>, s: Seq<int>, indent: nat, fuel: nat) -> Seq<Seq<char>>
    decreases fuel, 1nat, s.len(),
{
    if s.len() == 0 {
        Seq::empty()
    } else {
        dump_of_list(a, s.drop_last(), indent, fuel) + dump_of(a, s.last(), indent, fuel)
    }
}

/// Appends to `out` the lines that dumping the subtree of `x` writes.
fn append_dump_of<View>(arena: &NodeArena<View>, x: AbstractNode<View>, indent: usize, out: &mut Vec<String>, Ghost(fuel): Ghost<nat>)
    requires
        arena.wf(),
        arena.valid(x.obj as int),
        fuel + arena.anc(x.obj as int).len() >= arena.len(),
        indent + fuel <= usize::MAX,
    ensures
        final(out)@.map_values(|s: String| s@) == old(out)@.map_values(|s: String| s@) + dump_of(arena, x.obj as int, indent as nat, fuel),
    decreases fuel,
{
    let ghost xi = x.obj as int;
    proof {
        arena.lemma_anc_valid(xi);
        assert(arena.node_wf(xi));
    }
    let mut s = String::new();
    let mut i: usize = 0;
    while i < indent
        invariant
            i <= indent,
            s@ == indent_chars(i as nat),
        decreases indent - i,
    {
        s.append("    ");
        i = i + 1;
    }
    s.append(x.debug_str(arena).as_str());
    out.push(s);
    let ghost base = old(out)@.map_values(|s: String| s@);
    assert(out@.map_values(|s: String| s@) =~= base + seq![indent_chars(indent as nat) + node_type_debug(arena.node_at(xi).type_id)]);
    let kids = x.children(arena).collect(arena);
    let ghost ks = arena.kids(xi);
    let ghost f1 = (fuel - 1) as nat;
    let mut j: usize = 0;
    while j < kids.len()
        invariant
            arena.wf(),
            arena.valid(xi),
            fuel >= 1,
            f1 == fuel - 1,
            fuel + arena.anc(xi).len() >= arena.len(),
            indent + fuel <= usize::MAX,
            ids(kids@) == ks,
            ks == arena.kids(xi),
            j <= kids.len(),
            out@.map_values(|s: String| s@) == base + seq![indent_chars(indent as nat) + node_type_debug(arena.node_at(xi).type_id)]
                + dump_of_list(arena, ks.subrange(0, j as int), (indent + 1) as nat, f1),
        decreases kids.len() - j,
    {
        let k = kids[j];
        proof {
            assert(kids@[j as int].obj as int == ks[j as int]);
            assert(arena.node_wf(xi));
            assert(arena.kid_wf(xi, j as int));
            assert(arena.node_wf(k.obj as int));
            assert(arena.anc(k.obj as int) == arena.anc(xi).insert(xi));
            assert(ks.subrange(0, j + 1).drop_last() =~= ks.subrange(0, j as int));
        }
        append_dump_of(arena, k, indent + 1, out, Ghost(f1));
        assert(out@.map_values(|s: String| s@) =~= base + seq![indent_chars(indent as nat) + node_type_debug(arena.node_at(xi).type_id)]
            + dump_of_list(arena, ks.subrange(0, j + 1), (indent + 1) as nat, f1));
        j = j + 1;
    }
    proof {
        assert(ks.subrange(0, ks.len() as int) =~= ks);
    }
    assert(out@.map_values(|s: String| s@) =~= base + dump_of(arena, xi, indent as nat, fuel));
}

impl<View> AbstractNode<View> {
    /// Returns a string that describes this node.
    pub fn debug_str(&self, arena: &NodeArena<View>) -> (r: String)
        requires
            arena.valid(self.obj as int),
        ensures
            r@ == node_type_debug(arena.node_at(self.obj as int).type_id),
    {
        node_type_debug_string(self.type_id(arena))
    }

    /// The lines that dump the subtree rooted at this node, for debugging, with
    /// indentation: one line per node, in tree order, each indented by four spaces per
    /// level below this node, plus `indent` levels.
    pub fn dump_indent(&self, arena: &NodeArena<View>, indent: usize) -> (r: Vec<String>)
        requires
            arena.wf(),
            arena.valid(self.obj as int),
            indent + arena.len() <= usize::MAX,
        ensures
            r@.map_values(|s: String| s@) == dump_of(arena, self.obj as int, indent as nat, arena.len()),
    {
        let mut out: Vec<String> = Vec::new();
        append_dump_of(arena, *self, indent, &mut out, Ghost(arena.len()));
        assert(out@.map_values(|s: String| s@) =~= dump_of(arena, self.obj as int, indent as nat, arena.len()));
        out
    }

    /// The lines that dump the subtree rooted at this node, for debugging.
    pub fn dump(&self, arena: &NodeArena<View>) -> (r: Vec<String>)
        requires
            arena.wf(),
            arena.valid(self.obj as int),
        ensures
            r@.map_values(|s: String| s@) == dump_of(arena, self.obj as int, 0, arena.len()),
    {
        self.dump_indent(arena, 0)
    }
}

} // verus!
