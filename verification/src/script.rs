use vstd::prelude::*;
use crate::layout::NodeLayoutData;
use crate::fragment::{
    can_move_kids, is_kids_move, lemma_move_done, lemma_move_ready, lemma_move_start, lemma_move_step,
    moved_upto, spliced,
};
use crate::node::{AbstractNode, Node, NodeList, handle, ids, link};
use crate::tree::{DocumentAction, NodeArena};
use crate::types::{
    AbstractDocument, CharacterData, Comment, DOMString, DocumentType, Element, ElementTypeId,
    Error, ErrorResult, Fallible, NodeContent, NodeTypeId, ScriptView, Text, content_chars,
    content_fits, dom_str_chars, is_characterdata_type, is_doctype_type, is_document_type,
    is_element_type, is_fragment_type, is_text_type, node_type_code, null_str_as_empty,
};

verus! {

/// The content that a new node of type `t` carries: empty strings, no ids, no quirks.
pub open spec fn is_blank_content(t: NodeTypeId, c: NodeContent) -> bool {
    &&& content_fits(t, c)
    &&& match c {
        NodeContent::Text(x) => x.element.data@.len() == 0,
        NodeContent::Comment(x) => x.element.data@.len() == 0,
        NodeContent::Doctype(d) => d.name@.len() == 0 && d.public_id is None && d.system_id is None
            && !d.force_quirks,
        NodeContent::Element(e) => e.tag_name@.len() == 0,
        NodeContent::Plain => true,
    }
}

/// The blank content of a new node of type `t`.
fn blank_content(t: NodeTypeId) -> (r: NodeContent)
    ensures
        is_blank_content(t, r),
{
    match t {
        NodeTypeId::TextNodeTypeId => NodeContent::Text(Text { element: CharacterData { data: String::new() } }),
        NodeTypeId::CommentNodeTypeId => NodeContent::Comment(Comment { element: CharacterData { data: String::new() } }),
        NodeTypeId::DoctypeNodeTypeId => NodeContent::Doctype(
            DocumentType { name: String::new(), public_id: None, system_id: None, force_quirks: false },
        ),
        NodeTypeId::ElementNodeTypeId(_) => NodeContent::Element(Element { tag_name: String::new() }),
        NodeTypeId::DocumentNodeTypeId(_) => NodeContent::Plain,
        NodeTypeId::DocumentFragmentNodeTypeId => NodeContent::Plain,
    }
}

impl<View> Node<View> {
    /// The document that this node belongs to.
    pub fn owner_doc(&self) -> (r: AbstractDocument)
        requires
            self.owner_doc is Some,
        ensures
            r == self.owner_doc->0,
    {
        self.owner_doc.unwrap()
    }

    /// Makes this node belong to `document`.
    pub fn set_owner_doc(&mut self, document: AbstractDocument)
        ensures
            *final(self) == (Node { owner_doc: Some(document), ..*old(self) }),
    {
        self.owner_doc = Some(document);
    }
}

impl Node<ScriptView> {
    /// A new node of type `type_id` in document `doc`.
    pub fn new(type_id: NodeTypeId, doc: AbstractDocument) -> (r: Node<ScriptView>)
        ensures
            r.type_id == type_id,
            r.unlinked(),
            r.owner_doc == Some(doc),
            r.child_list is None,
            r.layout_data@.is_fresh(),
            is_blank_content(type_id, r.content),
            r.wf(),
    {
        Node::new_(type_id, Some(doc))
    }

    /// A new node of type `type_id` that belongs to no document yet.
    pub fn new_without_doc(type_id: NodeTypeId) -> (r: Node<ScriptView>)
        ensures
            r.type_id == type_id,
            r.unlinked(),
            r.owner_doc is None,
            r.child_list is None,
            r.layout_data@.is_fresh(),
            is_blank_content(type_id, r.content),
            r.wf(),
    {
        Node::new_(type_id, None)
    }

    fn new_(type_id: NodeTypeId, doc: Option<AbstractDocument>) -> (r: Node<ScriptView>)
        ensures
            r.type_id == type_id,
            r.unlinked(),
            r.owner_doc == doc,
            r.child_list is None,
            r.layout_data@.is_fresh(),
            is_blank_content(type_id, r.content),
            r.wf(),
    {
        Node {
            type_id: type_id,
            parent_node: None,
            first_child: None,
            last_child: None,
            next_sibling: None,
            prev_sibling: None,
            owner_doc: doc,
            child_list: None,
            layout_data: NodeLayoutData::new(),
            content: blank_content(type_id),
        }
    }

    /// Takes `node` into the arena and gives back the handle on it.
    pub fn as_abstract_node(arena: &mut NodeArena<ScriptView>, node: Node<ScriptView>) -> (r: AbstractNode<ScriptView>)
        requires
            old(arena).wf(),
            node.wf(),
            node.owner_doc matches Some(d) ==> old(arena).is_document_handle(d),
            old(arena).len() < usize::MAX,
        ensures
            final(arena).wf(),
            r.obj == old(arena).len(),
            final(arena).len() == old(arena).len() + 1,
            final(arena).node_at(r.obj as int).same_data(node),
            final(arena).node_at(r.obj as int).unlinked(),
            final(arena).kids(r.obj as int) == Seq::<int>::empty(),
            final(arena).anc(r.obj as int) == Set::<int>::empty(),
            final(arena).same_outside(old(arena), Set::empty()),
            final(arena).pending() == old(arena).pending(),
    {
        arena.add_node(node)
    }

    // http://dom.spec.whatwg.org/#dom-node-nodetype
    pub fn NodeType(&self) -> (r: u16)
        ensures
            r == node_type_code(self.type_id),
    {
        match self.type_id {
            NodeTypeId::ElementNodeTypeId(_) => 1,
            NodeTypeId::TextNodeTypeId => 3,
            NodeTypeId::CommentNodeTypeId => 8,
            NodeTypeId::DocumentNodeTypeId(_) => 9,
            NodeTypeId::DoctypeNodeTypeId => 10,
            NodeTypeId::DocumentFragmentNodeTypeId => 11,
        }
    }

    pub fn GetBaseURI(&self) -> (r: DOMString)
        ensures
            r is None,
    {
        None
    }

    pub fn GetOwnerDocument(&self) -> (r: Option<AbstractDocument>)
        requires
            !is_document_type(self.type_id) ==> self.owner_doc is Some,
        ensures
            r == if is_document_type(self.type_id) { None } else { self.owner_doc },
    {
        match self.type_id {
            NodeTypeId::ElementNodeTypeId(_)
            | NodeTypeId::CommentNodeTypeId
            | NodeTypeId::TextNodeTypeId
            | NodeTypeId::DoctypeNodeTypeId
            | NodeTypeId::DocumentFragmentNodeTypeId => Some(self.owner_doc()),
            NodeTypeId::DocumentNodeTypeId(_) => None,
        }
    }

    pub fn GetParentNode(&self) -> (r: Option<AbstractNode<ScriptView>>)
        ensures
            r == self.parent_node,
    {
        self.parent_node
    }

    pub fn GetParentElement(&self, arena: &NodeArena<ScriptView>) -> (r: Option<AbstractNode<ScriptView>>)
        requires
            self.parent_node matches Some(p) ==> arena.valid(p.obj as int),
        ensures
            r == match self.parent_node {
                Some(p) => if is_element_type(arena.node_at(p.obj as int).type_id) {
                    Some(p)
                } else {
                    None
                },
                None => None,
            },
    {
        match self.parent_node {
            Some(parent) => if parent.is_element(arena) {
                Some(parent)
            } else {
                None
            },
            None => None,
        }
    }

    pub fn HasChildNodes(&self) -> (r: bool)
        ensures
            r == (self.first_child is Some),
    {
        self.first_child.is_some()
    }

    pub fn GetFirstChild(&self) -> (r: Option<AbstractNode<ScriptView>>)
        ensures
            r == self.first_child,
    {
        self.first_child
    }

    pub fn GetLastChild(&self) -> (r: Option<AbstractNode<ScriptView>>)
        ensures
            r == self.last_child,
    {
        self.last_child
    }

    pub fn GetPreviousSibling(&self) -> (r: Option<AbstractNode<ScriptView>>)
        ensures
            r == self.prev_sibling,
    {
        self.prev_sibling
    }

    pub fn GetNextSibling(&self) -> (r: Option<AbstractNode<ScriptView>>)
        ensures
            r == self.next_sibling,
    {
        self.next_sibling
    }

    /// The `nodeValue` attribute: the data of a text or comment node, absent otherwise.
    pub fn GetNodeValue(&self) -> (r: DOMString)
        requires
            self.wf(),
        ensures
            is_characterdata_type(self.type_id) ==> r is Some && r->0@ == content_chars(self.content),
            !is_characterdata_type(self.type_id) ==> r is None,
    {
        match &self.content {
            NodeContent::Text(t) => t.element.Data(),
            NodeContent::Comment(c) => c.element.Data(),
            _ => None,
        }
    }

    pub fn SetNodeValue(&mut self, _abstract_self: AbstractNode<ScriptView>, _val: &DOMString) -> (r: ErrorResult)
        ensures
            r is Ok,
            *final(self) == *old(self),
    {
        Ok(())
    }

    pub fn Normalize(&mut self)
        ensures
            *final(self) == *old(self),
    {
    }

    pub fn IsEqualNode(&self, _node: Option<AbstractNode<ScriptView>>) -> (r: bool)
        ensures
            !r,
    {
        false
    }

    pub fn CompareDocumentPosition(&self, _other: AbstractNode<ScriptView>) -> (r: u16)
        ensures
            r == 0,
    {
        0
    }

    pub fn Contains(&self, _other: Option<AbstractNode<ScriptView>>) -> (r: bool)
        ensures
            !r,
    {
        false
    }

    pub fn LookupPrefix(&self, _prefix: &DOMString) -> (r: DOMString)
        ensures
            r is None,
    {
        None
    }

    pub fn LookupNamespaceURI(&self, _namespace: &DOMString) -> (r: DOMString)
        ensures
            r is None,
    {
        None
    }

    pub fn IsDefaultNamespace(&self, _namespace: &DOMString) -> (r: bool)
        ensures
            !r,
    {
        false
    }

    pub fn GetNamespaceURI(&self) -> (r: DOMString)
        ensures
            r is None,
    {
        None
    }

    pub fn GetPrefix(&self) -> (r: DOMString)
        ensures
            r is None,
    {
        None
    }

    pub fn GetLocalName(&self) -> (r: DOMString)
        ensures
            r is None,
    {
        None
    }

    pub fn HasAttributes(&self) -> (r: bool)
        ensures
            !r,
    {
        false
    }
}

} // verus!

verus! {

/// The requests that the removal of `node`, a node of `doc`, leaves for the document.
pub open spec fn removal_actions(node: AbstractNode<ScriptView>, doc: AbstractDocument) -> Seq<DocumentAction<ScriptView>> {
    seq![DocumentAction::UnregisterNodesWithId(node), DocumentAction::ContentChanged(doc)]
}

/// The requests that the insertion of `node`, a node of `doc`, leaves for the document.
pub open spec fn insertion_actions(node: AbstractNode<ScriptView>, doc: AbstractDocument) -> Seq<DocumentAction<ScriptView>> {
    seq![DocumentAction::RegisterNodesWithId(node), DocumentAction::ContentChanged(doc)]
}

impl AbstractNode<ScriptView> {
    // http://dom.spec.whatwg.org/#node-is-inserted
    fn node_inserted(self, arena: &mut NodeArena<ScriptView>)
        requires
            old(arena).wf(),
            old(arena).valid(self.obj as int),
            old(arena).parent(self.obj as int) is Some,
        ensures
            final(arena).wf(),
            final(arena).tree_same(old(arena)),
            final(arena).pending() == old(arena).pending() + insertion_actions(
                self,
                old(arena).node_at(self.obj as int).owner_doc->0,
            ),
    {
        proof {
            assert(old(arena).node_wf(self.obj as int));
        }
        let document = self.node(arena).owner_doc();
        arena.push_action(DocumentAction::RegisterNodesWithId(self));
        arena.push_action(DocumentAction::ContentChanged(document));
        assert(arena.pending() =~= old(arena).pending() + insertion_actions(self, document));
    }

    // http://dom.spec.whatwg.org/#node-is-removed
    fn node_removed(self, arena: &mut NodeArena<ScriptView>)
        requires
            old(arena).wf(),
            old(arena).valid(self.obj as int),
            old(arena).parent(self.obj as int) is None,
            old(arena).node_at(self.obj as int).owner_doc is Some,
        ensures
            final(arena).wf(),
            final(arena).tree_same(old(arena)),
            final(arena).pending() == old(arena).pending() + removal_actions(
                self,
                old(arena).node_at(self.obj as int).owner_doc->0,
            ),
    {
        let document = self.node(arena).owner_doc();
        arena.push_action(DocumentAction::UnregisterNodesWithId(self));
        arena.push_action(DocumentAction::ContentChanged(document));
        assert(arena.pending() =~= old(arena).pending() + removal_actions(self, document));
    }
}

impl Node<ScriptView> {
    // http://dom.spec.whatwg.org/#concept-node-remove
    fn remove(
        arena: &mut NodeArena<ScriptView>,
        node: AbstractNode<ScriptView>,
        parent: AbstractNode<ScriptView>,
        suppress_observers: bool,
    )
        requires
            old(arena).wf(),
            old(arena).valid(node.obj as int),
            old(arena).parent(node.obj as int) == Some(parent.obj as int),
        ensures
            final(arena).is_removal(old(arena), parent.obj as int, node.obj as int),
            final(arena).pending() == old(arena).pending() + if suppress_observers {
                Seq::empty()
            } else {
                removal_actions(node, old(arena).node_at(node.obj as int).owner_doc->0)
            },
    {
        proof {
            assert(old(arena).node_wf(node.obj as int));
        }
        arena.remove_child(parent, node);
        if !suppress_observers {
            let ghost mid = *arena;
            node.node_removed(arena);
            proof {
                arena.lemma_tree_same_views(&mid);
            }
        } else {
            assert(arena.pending() =~= old(arena).pending() + Seq::empty());
        }
    }

    // http://dom.spec.whatwg.org/#concept-node-pre-remove
    fn pre_remove(
        arena: &mut NodeArena<ScriptView>,
        child: AbstractNode<ScriptView>,
        parent: AbstractNode<ScriptView>,
    ) -> (r: Fallible<AbstractNode<ScriptView>>)
        requires
            old(arena).wf(),
            old(arena).valid(child.obj as int),
        ensures
            old(arena).parent(child.obj as int) != Some(parent.obj as int) ==> {
                &&& r == Err::<AbstractNode<ScriptView>, Error>(Error::NotFound)
                &&& final(arena).tree_same(old(arena))
                &&& final(arena).pending() == old(arena).pending()
            },
            old(arena).parent(child.obj as int) == Some(parent.obj as int) ==> {
                &&& r == Ok::<AbstractNode<ScriptView>, Error>(child)
                &&& final(arena).is_removal(old(arena), parent.obj as int, child.obj as int)
                &&& final(arena).pending() == old(arena).pending() + removal_actions(
                    child,
                    old(arena).node_at(child.obj as int).owner_doc->0,
                )
            },
            final(arena).wf(),
    {
        // Step 1.
        let current = child.parent_node(arena);
        if current.is_none() || current.unwrap().obj != parent.obj {
            return Err(Error::NotFound);
        }
        // Step 2.
        Node::remove(arena, child, parent, false);
        // Step 3.
        Ok(child)
    }

    fn wait_until_safe_to_modify_dom(arena: &mut NodeArena<ScriptView>, abstract_self: AbstractNode<ScriptView>)
        requires
            old(arena).wf(),
            old(arena).valid(abstract_self.obj as int),
            old(arena).node_at(abstract_self.obj as int).owner_doc is Some,
        ensures
            final(arena).wf(),
            final(arena).tree_same(old(arena)),
            final(arena).pending() == old(arena).pending().push(
                DocumentAction::WaitUntilSafeToModifyDom(old(arena).node_at(abstract_self.obj as int).owner_doc->0),
            ),
    {
        let document = abstract_self.node(arena).owner_doc();
        arena.push_action(DocumentAction::WaitUntilSafeToModifyDom(document));
    }

    /// Removes `node` from the children of `abstract_self`.
    pub fn RemoveChild(
        arena: &mut NodeArena<ScriptView>,
        abstract_self: AbstractNode<ScriptView>,
        node: AbstractNode<ScriptView>,
    ) -> (r: Fallible<AbstractNode<ScriptView>>)
        requires
            old(arena).wf(),
            old(arena).valid(abstract_self.obj as int),
            old(arena).valid(node.obj as int),
            old(arena).node_at(abstract_self.obj as int).owner_doc is Some,
        ensures
            final(arena).wf(),
            old(arena).parent(node.obj as int) != Some(abstract_self.obj as int) ==> {
                &&& r == Err::<AbstractNode<ScriptView>, Error>(Error::NotFound)
                &&& final(arena).nodes() == old(arena).nodes()
                &&& final(arena).kid_lists() == old(arena).kid_lists()
                &&& final(arena).anc_lists() == old(arena).anc_lists()
                &&& final(arena).pending() == old(arena).pending().push(
                    DocumentAction::WaitUntilSafeToModifyDom(old(arena).node_at(abstract_self.obj as int).owner_doc->0),
                )
            },
            old(arena).parent(node.obj as int) == Some(abstract_self.obj as int) ==> {
                &&& r == Ok::<AbstractNode<ScriptView>, Error>(node)
                &&& final(arena).is_removal(old(arena), abstract_self.obj as int, node.obj as int)
                &&& final(arena).pending() == old(arena).pending().push(
                    DocumentAction::WaitUntilSafeToModifyDom(old(arena).node_at(abstract_self.obj as int).owner_doc->0),
                ) + removal_actions(node, old(arena).node_at(node.obj as int).owner_doc->0)
            },
    {
        Node::wait_until_safe_to_modify_dom(arena, abstract_self);
        let ghost mid = *arena;
        proof {
            arena.lemma_tree_same_views(old(arena));
        }
        let r = Node::pre_remove(arena, node, abstract_self);
        proof {
            mid.lemma_tree_same_views(old(arena));
            if r is Ok {
                assert(arena.pending() =~= old(arena).pending().push(
                    DocumentAction::WaitUntilSafeToModifyDom(old(arena).node_at(abstract_self.obj as int).owner_doc->0),
                ) + removal_actions(node, old(arena).node_at(node.obj as int).owner_doc->0));
            }
        }
        r
    }
}

} // verus!

verus! {

/// What `pre_insert` finds of putting `node` under `parent`, before `child` if given:
/// `Ok` when it goes ahead, else the error that it reports.
pub open spec fn pre_insert_check(
    a: &NodeArena<ScriptView>,
    node: int,
    parent: int,
    child: Option<AbstractNode<ScriptView>>,
) -> Result<(), Error> {
    let pt = a.node_at(parent).type_id;
    let nt = a.node_at(node).type_id;
    if !(is_document_type(pt) || is_fragment_type(pt) || is_element_type(pt)) {
        Err(Error::HierarchyRequest)
    } else if a.in_subtree(node, parent) {
        Err(Error::HierarchyRequest)
    } else if match child {
        Some(c) => a.parent(c.obj as int) != Some(parent),
        None => false,
    } {
        Err(Error::NotFound)
    } else if is_document_type(nt) {
        Err(Error::HierarchyRequest)
    } else if is_text_type(nt) && is_document_type(pt) {
        Err(Error::HierarchyRequest)
    } else if is_doctype_type(nt) && !is_document_type(pt) {
        Err(Error::HierarchyRequest)
    } else {
        Ok(())
    }
}

/// The owner document of `x` once `node` has been adopted by `doc`.
pub open spec fn adopted_owner(
    a: &NodeArena<ScriptView>,
    node: int,
    doc: AbstractDocument,
    x: int,
) -> Option<AbstractDocument> {
    if a.node_at(node).owner_doc != Some(doc) {
        a.owner_after_adopt(node, doc, x)
    } else {
        a.node_at(x).owner_doc
    }
}

/// `new` is `old` once `doc` has adopted `node`: taken from its parent, if any, with
/// its subtree moved to `doc`.
pub open spec fn is_adoption(
    new: &NodeArena<ScriptView>,
    old: &NodeArena<ScriptView>,
    node: int,
    doc: AbstractDocument,
) -> bool {
    &&& new.wf()
    &&& new.len() == old.len()
    &&& forall|y: int| #![trigger new.kids(y)]
        old.valid(y) ==> new.kids(y) == old.kids_detached(node, y)
    &&& forall|x: int| #![trigger new.parent(x)]
        old.valid(x) ==> new.parent(x) == if x == node { None } else { old.parent(x) }
    &&& forall|x: int| #![trigger new.anc(x)]
        old.valid(x) ==> new.anc(x) == old.anc_detached(node, x)
    &&& forall|x: int| #![trigger new.node_at(x)]
        old.valid(x) ==> new.node_at(x).same_data(
            Node { owner_doc: adopted_owner(old, node, doc, x), ..old.node_at(x) },
        )
}

/// The child before which `pre_insert` puts `node`: `child`, or the next sibling of
/// `node` when `child` is `node` itself.
pub open spec fn reference_child(
    a: &NodeArena<ScriptView>,
    node: int,
    child: Option<AbstractNode<ScriptView>>,
) -> Option<AbstractNode<ScriptView>> {
    if link(child) != Some(node) {
        child
    } else {
        a.node_at(node).next_sibling
    }
}

/// Where `pre_insert` puts `node` among the children that `parent` has once `node` is
/// taken from its old place.
pub open spec fn insertion_place(
    a: &NodeArena<ScriptView>,
    node: int,
    parent: int,
    child: Option<AbstractNode<ScriptView>>,
) -> int {
    match reference_child(a, node, child) {
        None => a.kids_detached(node, parent).len() as int,
        Some(r) => a.kids_detached(node, parent).index_of(r.obj as int),
    }
}

/// `new` is `old` once `pre_insert` has put `node` under `parent`, before `child` if
/// given, for document `doc`. A document fragment does not go in itself: it is taken
/// from its parent, and its children go, in order, where it would have gone; the
/// fragment is left with no children.
pub open spec fn is_pre_insertion(
    new: &NodeArena<ScriptView>,
    old: &NodeArena<ScriptView>,
    node: int,
    parent: int,
    child: Option<AbstractNode<ScriptView>>,
    doc: AbstractDocument,
) -> bool {
    let frag = is_fragment_type(old.node_at(node).type_id);
    let kp = old.kids_detached(node, parent);
    let place = insertion_place(old, node, parent, child);
    &&& new.wf()
    &&& new.len() == old.len()
    &&& forall|y: int| #![trigger new.kids(y)]
        old.valid(y) ==> new.kids(y) == if y == parent {
            if frag { spliced(kp, place, old.kids(node)) } else { kp.insert(place, node) }
        } else if y == node && frag {
            Seq::<int>::empty()
        } else {
            old.kids_detached(node, y)
        }
    &&& forall|x: int| #![trigger new.parent(x)]
        old.valid(x) ==> new.parent(x) == if x == node {
            if frag { None } else { Some(parent) }
        } else if frag && old.parent(x) == Some(node) {
            Some(parent)
        } else {
            old.parent(x)
        }
    &&& forall|x: int| #![trigger new.anc(x)]
        old.valid(x) ==> new.anc(x) == if frag && old.anc(x).contains(node) {
            old.anc_detached(node, x).remove(node).union(old.anc(parent).insert(parent))
        } else if !frag && old.in_subtree(node, x) {
            old.anc_detached(node, x).union(old.anc(parent).insert(parent))
        } else {
            old.anc_detached(node, x)
        }
    &&& forall|x: int| #![trigger new.node_at(x)]
        old.valid(x) ==> new.node_at(x).same_data(
            Node { owner_doc: adopted_owner(old, node, doc, x), ..old.node_at(x) },
        )
}

/// The requests that `pre_insert` leaves once it goes ahead: those of taking `node` from
/// its parent, then those of inserting `node`, or each child of a document fragment in
/// turn.
pub open spec fn pre_insertion_actions(
    old: &NodeArena<ScriptView>,
    node: AbstractNode<ScriptView>,
    doc: AbstractDocument,
) -> Seq<DocumentAction<ScriptView>> {
    (if old.parent(node.obj as int) is Some {
        removal_actions(node, old.node_at(node.obj as int).owner_doc->0)
    } else {
        Seq::empty()
    }) + (if is_fragment_type(old.node_at(node.obj as int).type_id) {
        insertion_actions_of(
            old.kids(node.obj as int),
            |x: int| adopted_owner(old, node.obj as int, doc, x)->0,
        )
    } else {
        insertion_actions(node, doc)
    })
}

/// Whether `node` is `parent` or one of its ancestors.
fn is_inclusive_ancestor_of(
    arena: &NodeArena<ScriptView>,
    node: AbstractNode<ScriptView>,
    parent: AbstractNode<ScriptView>,
) -> (r: bool)
    requires
        arena.wf(),
        arena.valid(parent.obj as int),
    ensures
        r == arena.in_subtree(node.obj as int, parent.obj as int),
{
    if node.obj == parent.obj {
        return true;
    }
    let ancestors = parent.ancestors(arena);
    let mut k: usize = 0;
    while k < ancestors.len()
        invariant
            k <= ancestors@.len(),
            forall|a: int| arena.anc(parent.obj as int).contains(a) <==> #[trigger] ids(ancestors@).contains(a),
            forall|m: int| 0 <= m < k ==> #[trigger] ancestors@[m].obj != node.obj,
        decreases ancestors@.len() - k,
    {
        if ancestors[k].obj == node.obj {
            assert(ids(ancestors@)[k as int] == node.obj as int);
            assert(ids(ancestors@).contains(node.obj as int));
            return true;
        }
        k = k + 1;
    }
    proof {
        if ids(ancestors@).contains(node.obj as int) {
            let m = choose|m: int| 0 <= m < ids(ancestors@).len() && ids(ancestors@)[m] == node.obj as int;
            assert(ancestors@[m].obj != node.obj);
        }
    }
    false
}

impl Node<ScriptView> {
    // http://dom.spec.whatwg.org/#concept-node-adopt
    fn adopt(arena: &mut NodeArena<ScriptView>, node: AbstractNode<ScriptView>, document: AbstractDocument)
        requires
            old(arena).wf(),
            old(arena).is_document_handle(document),
            old(arena).valid(node.obj as int),
            old(arena).node_at(node.obj as int).owner_doc is Some,
        ensures
            is_adoption(final(arena), old(arena), node.obj as int, document),
            final(arena).pending() == old(arena).pending() + if old(arena).parent(node.obj as int) is Some {
                removal_actions(node, old(arena).node_at(node.obj as int).owner_doc->0)
            } else {
                Seq::empty()
            },
    {
        let ghost ni = node.obj as int;
        let ghost o = *old(arena);
        proof {
            assert(o.node_wf(ni));
        }
        // Step 1.
        match node.parent_node(arena) {
            Some(parent) => {
                Node::remove(arena, node, parent, false);
                proof {
                    arena.lemma_removal_subtree(&o, parent.obj as int, ni);
                }
            },
            None => {
                assert(arena.pending() =~= o.pending() + Seq::empty());
            },
        }
        let ghost mid = *arena;
        assert(forall|x: int| #![trigger mid.in_subtree(ni, x)] o.valid(x) ==> mid.in_subtree(ni, x) == o.in_subtree(ni, x));
        // Step 2.
        if node.node(arena).owner_doc() != document {
            proof {
                mid.lemma_anc_valid(ni);
            }
            arena.set_subtree_owner(node, document, Ghost(arena.len()));
            assert forall|x: int| #![trigger arena.kids(x)] #![trigger arena.parent(x)] #![trigger arena.anc(x)]
                o.valid(x) implies arena.kids(x) == mid.kids(x) && arena.parent(x) == mid.parent(x)
                    && arena.anc(x) == mid.anc(x) by {
                assert(arena.node_at(x) == (Node { owner_doc: mid.owner_after_adopt(ni, document, x), ..mid.node_at(x) }));
            }
            assert forall|x: int| #![trigger arena.node_at(x)] o.valid(x) implies arena.node_at(x).same_data(
                Node { owner_doc: adopted_owner(&o, ni, document, x), ..o.node_at(x) },
            ) by {
                assert(mid.in_subtree(ni, x) == o.in_subtree(ni, x));
            }
        }
        // Step 3.
        // If node is an element, it is _affected by a base URL change_.
    }
}

} // verus!

verus! {

/// The requests that inserting the nodes `ks`, one after the other, leaves, each node
/// belonging to the document that `owner` gives it.
pub open spec fn insertion_actions_of(
    ks: Seq<int>,
    owner: spec_fn(int) -> AbstractDocument,
) -> Seq<DocumentAction<ScriptView>>
    decreases ks.len(),
{
    if ks.len() == 0 {
        Seq::empty()
    } else {
        insertion_actions_of(ks.drop_last(), owner) + insertion_actions(handle(ks.last()), owner(ks.last()))
    }
}

/// The owner document of each node of `a`.
pub open spec fn owner_in(a: &NodeArena<ScriptView>) -> spec_fn(int) -> AbstractDocument {
    |x: int| a.node_at(x).owner_doc->0
}

/// The requests depend on the owners of the inserted nodes alone.
proof fn lemma_insertion_actions_owner(ks: Seq<int>, f: spec_fn(int) -> AbstractDocument, g: spec_fn(int) -> AbstractDocument)
    requires
        forall|i: int| 0 <= i < ks.len() ==> f(ks[i]) == g(ks[i]),
    ensures
        insertion_actions_of(ks, f) == insertion_actions_of(ks, g),
    decreases ks.len(),
{
    if ks.len() > 0 {
        lemma_insertion_actions_owner(ks.drop_last(), f, g);
        assert(f(ks[ks.len() - 1]) == g(ks[ks.len() - 1]));
    }
}

impl Node<ScriptView> {
    // http://dom.spec.whatwg.org/#concept-node-insert
    fn insert(
        arena: &mut NodeArena<ScriptView>,
        node: AbstractNode<ScriptView>,
        parent: AbstractNode<ScriptView>,
        child: Option<AbstractNode<ScriptView>>,
        suppress_observers: bool,
    )
        requires
            old(arena).wf(),
            old(arena).valid(node.obj as int),
            old(arena).valid(parent.obj as int),
            child matches Some(c) ==> old(arena).valid(c.obj as int) && old(arena).parent(c.obj as int) == Some(parent.obj as int),
            old(arena).parent(node.obj as int) is None,
            !old(arena).in_subtree(node.obj as int, parent.obj as int),
            old(arena).node_at(node.obj as int).owner_doc is Some,
        ensures
            final(arena).wf(),
            is_fragment_type(old(arena).node_at(node.obj as int).type_id) ==> {
                &&& is_kids_move(final(arena), old(arena), node.obj as int, parent.obj as int, child)
                &&& final(arena).pending() == old(arena).pending() + if suppress_observers {
                    Seq::empty()
                } else {
                    insertion_actions_of(old(arena).kids(node.obj as int), owner_in(old(arena)))
                }
            },
            !is_fragment_type(old(arena).node_at(node.obj as int).type_id) ==> {
                &&& final(arena).is_addition(old(arena), parent.obj as int, node.obj as int, old(arena).insert_pos(parent.obj as int, child))
                &&& final(arena).pending() == old(arena).pending() + if suppress_observers {
                    Seq::empty()
                } else {
                    insertion_actions(node, old(arena).node_at(node.obj as int).owner_doc->0)
                }
            },
    {
        let ghost o = *old(arena);
        let ghost ni = node.obj as int;
        let ghost pi = parent.obj as int;
        let ghost frag = is_fragment_type(o.node_at(ni).type_id);
        let ghost ins: Seq<int> = if frag { o.kids(ni) } else { seq![ni] };
        // Step 1-3: ranges.
        // Step 4.
        let is_frag = match node.type_id(arena) {
            NodeTypeId::DocumentFragmentNodeTypeId => true,
            _ => false,
        };
        let nodes: Vec<AbstractNode<ScriptView>> = if is_frag {
            node.children(arena).collect(arena)
        } else {
            vec![node]
        };
        assert(ids(nodes@) =~= ins);
        assert(nodes@.len() == ids(nodes@).len());
        proof {
            if frag {
                lemma_move_start(&o, ni, pi, child);
            }
        }
        // Step 5: mutation records.
        // Step 6-8: the nodes go under the parent, the children of a document fragment
        // taken from it one by one.
        let mut i: usize = 0;
        while i < nodes.len()
            invariant
                o == *old(arena),
                ni == node.obj as int,
                pi == parent.obj as int,
                frag == is_fragment_type(o.node_at(ni).type_id),
                is_frag == frag,
                ins == if frag { o.kids(ni) } else { seq![ni] },
                ids(nodes@) == ins,
                nodes@.len() == ins.len(),
                can_move_kids(&o, ni, pi, child),
                o.node_at(ni).owner_doc is Some,
                i <= nodes@.len(),
                frag ==> moved_upto(arena, &o, ni, pi, child, i as int),
                frag ==> arena.pending() == o.pending(),
                !frag && i == 0 ==> *arena == o,
                !frag && i == 1 ==> final_added(arena, &o, pi, ni, child),
            decreases nodes@.len() - i,
        {
            let k = nodes[i];
            assert(k.obj as int == ins[i as int]);
            if is_frag {
                let ghost cur = *arena;
                proof {
                    lemma_move_ready(&cur, &o, ni, pi, child, i as int);
                }
                arena.remove_child(node, k);
                let ghost mid = *arena;
                proof {
                    assert(mid.anc(pi) == cur.anc_after_remove(k.obj as int, pi));
                    assert(!cur.in_subtree(k.obj as int, pi));
                    assert(mid.node_at(k.obj as int).same_data(cur.node_at(k.obj as int)));
                    if let Some(c) = child {
                        assert(mid.parent(c.obj as int) == cur.parent(c.obj as int));
                    }
                }
                arena.add_child(parent, k, child);
                proof {
                    lemma_move_step(arena, &mid, &cur, &o, ni, pi, child, i as int);
                }
            } else {
                arena.add_child(parent, k, child);
            }
            i = i + 1;
        }
        proof {
            if frag {
                lemma_move_done(arena, &o, ni, pi, child);
            }
        }
        // Step 9.
        let ghost mid = *arena;
        proof {
            assert forall|m: int| #![trigger ins[m]] 0 <= m < ins.len() implies {
                &&& mid.valid(ins[m])
                &&& mid.parent(ins[m]) is Some
                &&& mid.node_at(ins[m]).owner_doc == o.node_at(ins[m]).owner_doc
            } by {
                if frag {
                    assert(o.node_wf(ni));
                    assert(o.kid_wf(ni, m));
                }
            }
        }
        if !suppress_observers {
            let mut i: usize = 0;
            while i < nodes.len()
                invariant
                    ids(nodes@) == ins,
                    i <= nodes@.len(),
                    mid.wf(),
                    forall|m: int| #![trigger ins[m]] 0 <= m < ins.len() ==> {
                        &&& mid.valid(ins[m])
                        &&& mid.parent(ins[m]) is Some
                        &&& mid.node_at(ins[m]).owner_doc == o.node_at(ins[m]).owner_doc
                    },
                    arena.wf(),
                    arena.tree_same(&mid),
                    arena.pending() == mid.pending() + insertion_actions_of(ins.subrange(0, i as int), owner_in(&o)),
                decreases nodes@.len() - i,
            {
                proof {
                    arena.lemma_tree_same_views(&mid);
                    assert(nodes@[i as int].obj as int == ins[i as int]);
                }
                nodes[i].node_inserted(arena);
                proof {
                    assert(nodes@[i as int] == handle::<ScriptView>(ins[i as int]));
                    assert(ins.subrange(0, i + 1).drop_last() =~= ins.subrange(0, i as int));
                    assert(arena.pending() =~= mid.pending() + insertion_actions_of(ins.subrange(0, i + 1), owner_in(&o)));
                }
                i = i + 1;
            }
        } else {
            assert(arena.pending() =~= mid.pending() + Seq::empty());
        }
        proof {
            arena.lemma_tree_same_views(&mid);
            assert(ins.subrange(0, ins.len() as int) =~= ins);
            if !frag {
                assert(mid.node_at(ni).same_data(o.node_at(ni)));
                assert(node == handle::<ScriptView>(ni));
                assert(ins.drop_last() =~= Seq::<int>::empty());
                assert(insertion_actions_of(Seq::<int>::empty(), owner_in(&o)) =~= Seq::empty());
                assert(insertion_actions_of(ins, owner_in(&o)) =~= insertion_actions(node, o.node_at(ni).owner_doc->0));
            }
        }
    }
}

/// `new` is `old` with the root `c` put under `p` before `child`, if given; no request
/// was left.
pub open spec fn final_added(
    new: &NodeArena<ScriptView>,
    old: &NodeArena<ScriptView>,
    p: int,
    c: int,
    child: Option<AbstractNode<ScriptView>>,
) -> bool {
    &&& new.is_addition(old, p, c, old.insert_pos(p, child))
    &&& new.pending() == old.pending()
}

} // verus!

verus! {

/// Adoption keeps the subtree of the adopted node, and the ancestors of the nodes
/// outside of it.
proof fn lemma_adoption_subtree(new: &NodeArena<ScriptView>, old: &NodeArena<ScriptView>, node: int, doc: AbstractDocument)
    requires
        old.wf(),
        old.valid(node),
        is_adoption(new, old, node, doc),
    ensures
        forall|x: int| #![trigger new.in_subtree(node, x)]
            old.valid(x) ==> new.in_subtree(node, x) == old.in_subtree(node, x),
        forall|x: int| #![trigger old.in_subtree(node, x)]
            old.valid(x) && !old.in_subtree(node, x) ==> new.anc(x) == old.anc(x),
{
    assert(old.node_wf(node));
    assert forall|x: int| #![trigger new.in_subtree(node, x)]
        old.valid(x) implies new.in_subtree(node, x) == old.in_subtree(node, x) by {
        assert(new.anc(x) == old.anc_detached(node, x));
    }
    assert forall|x: int| #![trigger old.in_subtree(node, x)]
        old.valid(x) && !old.in_subtree(node, x) implies new.anc(x) == old.anc(x) by {
        assert(new.anc(x) == old.anc_detached(node, x));
    }
}

impl Node<ScriptView> {
    // http://dom.spec.whatwg.org/#concept-node-pre-insert
    pub fn pre_insert(
        arena: &mut NodeArena<ScriptView>,
        node: AbstractNode<ScriptView>,
        parent: AbstractNode<ScriptView>,
        child: Option<AbstractNode<ScriptView>>,
    ) -> (r: Fallible<AbstractNode<ScriptView>>)
        requires
            old(arena).wf(),
            old(arena).valid(node.obj as int),
            old(arena).valid(parent.obj as int),
            child matches Some(c) ==> old(arena).valid(c.obj as int),
            pre_insert_check(old(arena), node.obj as int, parent.obj as int, child) is Ok ==> {
                &&& old(arena).node_at(parent.obj as int).owner_doc is Some
                &&& old(arena).node_at(node.obj as int).owner_doc is Some
            },
        ensures
            final(arena).wf(),
            pre_insert_check(old(arena), node.obj as int, parent.obj as int, child) matches Err(e) ==> {
                &&& r == Err::<AbstractNode<ScriptView>, Error>(e)
                &&& *final(arena) == *old(arena)
            },
            pre_insert_check(old(arena), node.obj as int, parent.obj as int, child) is Ok ==> {
                let doc = old(arena).node_at(parent.obj as int).owner_doc->0;
                &&& r == Ok::<AbstractNode<ScriptView>, Error>(node)
                &&& is_pre_insertion(final(arena), old(arena), node.obj as int, parent.obj as int, child, doc)
                &&& final(arena).pending() == old(arena).pending() + pre_insertion_actions(old(arena), node, doc)
            },
    {
        let ghost o = *old(arena);
        let ghost ni = node.obj as int;
        let ghost pi = parent.obj as int;
        proof {
            assert(o.node_wf(ni));
            assert(o.node_wf(pi));
        }
        // Step 1.
        match parent.type_id(arena) {
            NodeTypeId::DocumentNodeTypeId(_)
            | NodeTypeId::DocumentFragmentNodeTypeId
            | NodeTypeId::ElementNodeTypeId(_) => {},
            _ => {
                return Err(Error::HierarchyRequest);
            },
        }
        // Step 2.
        if is_inclusive_ancestor_of(arena, node, parent) {
            return Err(Error::HierarchyRequest);
        }
        // Step 3.
        match child {
            Some(child) => {
                let cp = child.parent_node(arena);
                if cp.is_none() || cp.unwrap().obj != parent.obj {
                    return Err(Error::NotFound);
                }
            },
            None => {},
        }
        // Step 4.
        match node.type_id(arena) {
            NodeTypeId::DocumentFragmentNodeTypeId
            | NodeTypeId::DoctypeNodeTypeId
            | NodeTypeId::ElementNodeTypeId(_)
            | NodeTypeId::TextNodeTypeId
            | NodeTypeId::CommentNodeTypeId => {},
            NodeTypeId::DocumentNodeTypeId(_) => {
                return Err(Error::HierarchyRequest);
            },
        }
        // Step 5.
        match node.type_id(arena) {
            NodeTypeId::TextNodeTypeId => {
                if parent.is_document(arena) {
                    return Err(Error::HierarchyRequest);
                }
            },
            NodeTypeId::DoctypeNodeTypeId => {
                if !parent.is_document(arena) {
                    return Err(Error::HierarchyRequest);
                }
            },
            _ => {},
        }
        assert(pre_insert_check(&o, ni, pi, child) is Ok);
        // Step 6.
        // Step 7-8.
        let is_node = match child {
            Some(c) => c.obj == node.obj,
            None => false,
        };
        let reference_child = if !is_node {
            child
        } else {
            node.next_sibling(arena)
        };
        proof {
            if is_node {
                if let Some(rc) = reference_child {
                    let ks = o.kids(pi);
                    let k = choose|k: int| 0 <= k < ks.len() && ks[k] == ni;
                    assert(o.kid_wf(pi, k));
                    assert(o.kid_wf(pi, k + 1));
                }
            }
        }
        // Step 9.
        let document = parent.node(arena).owner_doc();
        Node::adopt(arena, node, document);
        let ghost mid = *arena;
        proof {
            lemma_adoption_subtree(&mid, &o, ni, document);
            assert(mid.parent(pi) == o.parent(pi));
            if let Some(rc) = reference_child {
                assert(mid.parent(rc.obj as int) == o.parent(rc.obj as int));
            }
            assert(mid.kids(ni) == o.kids_detached(ni, ni));
            assert(mid.node_at(ni).same_data(Node { owner_doc: adopted_owner(&o, ni, document, ni), ..o.node_at(ni) }));
        }
        // Step 10.
        Node::insert(arena, node, parent, reference_child, false);
        proof {
            let frag = is_fragment_type(o.node_at(ni).type_id);
            assert(o.parent(ni) != Some(ni));
            assert(mid.kids(ni) == o.kids(ni));
            assert(mid.anc(pi) == o.anc(pi));
            assert forall|x: int| #![trigger arena.anc(x)] o.valid(x) implies arena.anc(x) == if frag && o.anc(x).contains(ni) {
                o.anc_detached(ni, x).remove(ni).union(o.anc(pi).insert(pi))
            } else if !frag && o.in_subtree(ni, x) {
                o.anc_detached(ni, x).union(o.anc(pi).insert(pi))
            } else {
                o.anc_detached(ni, x)
            } by {
                assert(mid.anc(x) == o.anc_detached(ni, x));
                assert(mid.in_subtree(ni, x) == o.in_subtree(ni, x));
                if x == ni {
                    assert(mid.node_wf(ni));
                }
            }
            if frag {
                assert forall|i: int| 0 <= i < o.kids(ni).len() implies owner_in(&mid)(o.kids(ni)[i])
                    == (|x: int| adopted_owner(&o, ni, document, x)->0)(o.kids(ni)[i]) by {
                    assert(o.kid_wf(ni, i));
                    assert(mid.node_at(o.kids(ni)[i]).same_data(
                        Node { owner_doc: adopted_owner(&o, ni, document, o.kids(ni)[i]), ..o.node_at(o.kids(ni)[i]) },
                    ));
                }
                lemma_insertion_actions_owner(o.kids(ni), owner_in(&mid), |x: int| adopted_owner(&o, ni, document, x)->0);
            }
            assert(arena.pending() =~= o.pending() + pre_insertion_actions(&o, node, document));
        }
        // Step 11.
        return Ok(node);
    }
}

} // verus!

verus! {

/// `new` is `old` once `node` has been asked to go under `parent`, before `child` if
/// given: the parent's document was asked to wait until the tree may change, then
/// `pre_insert` went ahead or changed nothing.
pub open spec fn insertion_outcome(
    new: &NodeArena<ScriptView>,
    old: &NodeArena<ScriptView>,
    parent: int,
    node: AbstractNode<ScriptView>,
    child: Option<AbstractNode<ScriptView>>,
) -> bool {
    let doc = old.node_at(parent).owner_doc->0;
    let waited = old.pending().push(DocumentAction::WaitUntilSafeToModifyDom(doc));
    &&& new.wf()
    &&& match pre_insert_check(old, node.obj as int, parent, child) {
        Err(_) => {
            &&& new.tree_same(old)
            &&& new.pending() == waited
        },
        Ok(_) => {
            &&& is_pre_insertion(new, old, node.obj as int, parent, child, doc)
            &&& new.pending() == waited + pre_insertion_actions(old, node, doc)
        },
    }
}

/// `new` is `old` once `AppendChild` has been asked to append `node` to `parent`.
pub open spec fn append_outcome(
    new: &NodeArena<ScriptView>,
    old: &NodeArena<ScriptView>,
    parent: int,
    node: AbstractNode<ScriptView>,
) -> bool {
    insertion_outcome(new, old, parent, node, None)
}

/// What `AppendChild` and `InsertBefore` ask of the nodes they are given, beyond being in
/// the arena: the parent belongs to a document, and when the insertion goes ahead, so
/// does `node`.
pub open spec fn can_pre_insert(
    a: &NodeArena<ScriptView>,
    node: int,
    parent: int,
    child: Option<AbstractNode<ScriptView>>,
) -> bool {
    &&& a.node_at(parent).owner_doc is Some
    &&& pre_insert_check(a, node, parent, child) is Ok ==> a.node_at(node).owner_doc is Some
}

/// Arenas with the same nodes and ghost records ask for the same requests on insertion.
proof fn lemma_pre_insertion_actions_tree_same(
    a: &NodeArena<ScriptView>,
    b: &NodeArena<ScriptView>,
    node: AbstractNode<ScriptView>,
    doc: AbstractDocument,
)
    requires
        a.tree_same(b),
    ensures
        pre_insertion_actions(a, node, doc) == pre_insertion_actions(b, node, doc),
{
    a.lemma_tree_same_views(b);
    let ni = node.obj as int;
    let ks = b.kids(ni);
    assert forall|i: int| 0 <= i < ks.len() implies (|x: int| adopted_owner(a, ni, doc, x)->0)(ks[i])
        == (|x: int| adopted_owner(b, ni, doc, x)->0)(ks[i]) by {
        assert(a.node_at(ni) == b.node_at(ni));
        assert(a.node_at(ks[i]) == b.node_at(ks[i]));
        assert(a.anc(ks[i]) == b.anc(ks[i]));
    }
    lemma_insertion_actions_owner(ks, |x: int| adopted_owner(a, ni, doc, x)->0, |x: int| adopted_owner(b, ni, doc, x)->0);
}

impl Node<ScriptView> {
    /// Appends `node` to the children of `abstract_self`.
    pub fn AppendChild(
        arena: &mut NodeArena<ScriptView>,
        abstract_self: AbstractNode<ScriptView>,
        node: AbstractNode<ScriptView>,
    ) -> (r: Fallible<AbstractNode<ScriptView>>)
        requires
            old(arena).wf(),
            old(arena).valid(abstract_self.obj as int),
            old(arena).valid(node.obj as int),
            can_pre_insert(old(arena), node.obj as int, abstract_self.obj as int, None),
        ensures
            append_outcome(final(arena), old(arena), abstract_self.obj as int, node),
            r == match pre_insert_check(old(arena), node.obj as int, abstract_self.obj as int, None) {
                Err(e) => Err::<AbstractNode<ScriptView>, Error>(e),
                Ok(_) => Ok::<AbstractNode<ScriptView>, Error>(node),
            },
    {
        let ghost o = *old(arena);
        Node::wait_until_safe_to_modify_dom(arena, abstract_self);
        let ghost mid = *arena;
        proof {
            mid.lemma_tree_same_views(&o);
            assert(pre_insert_check(&mid, node.obj as int, abstract_self.obj as int, None)
                == pre_insert_check(&o, node.obj as int, abstract_self.obj as int, None));
        }
        let r = Node::pre_insert(arena, node, abstract_self, None);
        proof {
            let doc = o.node_at(abstract_self.obj as int).owner_doc->0;
            if r is Ok {
                lemma_pre_insertion_actions_tree_same(&mid, &o, node, doc);
                assert(is_pre_insertion(arena, &o, node.obj as int, abstract_self.obj as int, None, doc));
                assert(arena.pending() =~= o.pending().push(DocumentAction::WaitUntilSafeToModifyDom(doc))
                    + pre_insertion_actions(&o, node, doc));
            }
        }
        r
    }

    /// Inserts `node` among the children of `abstract_self`, just before `child`, or
    /// at the end when no `child` is given.
    pub fn InsertBefore(
        arena: &mut NodeArena<ScriptView>,
        abstract_self: AbstractNode<ScriptView>,
        node: AbstractNode<ScriptView>,
        child: Option<AbstractNode<ScriptView>>,
    ) -> (r: Fallible<AbstractNode<ScriptView>>)
        requires
            old(arena).wf(),
            old(arena).valid(abstract_self.obj as int),
            old(arena).valid(node.obj as int),
            child matches Some(c) ==> old(arena).valid(c.obj as int),
            can_pre_insert(old(arena), node.obj as int, abstract_self.obj as int, child),
        ensures
            insertion_outcome(final(arena), old(arena), abstract_self.obj as int, node, child),
            r == match pre_insert_check(old(arena), node.obj as int, abstract_self.obj as int, child) {
                Err(e) => Err::<AbstractNode<ScriptView>, Error>(e),
                Ok(_) => Ok::<AbstractNode<ScriptView>, Error>(node),
            },
    {
        let ghost o = *old(arena);
        Node::wait_until_safe_to_modify_dom(arena, abstract_self);
        let ghost mid = *arena;
        proof {
            mid.lemma_tree_same_views(&o);
            assert(pre_insert_check(&mid, node.obj as int, abstract_self.obj as int, child)
                == pre_insert_check(&o, node.obj as int, abstract_self.obj as int, child));
        }
        let r = Node::pre_insert(arena, node, abstract_self, child);
        proof {
            let doc = o.node_at(abstract_self.obj as int).owner_doc->0;
            if r is Ok {
                lemma_pre_insertion_actions_tree_same(&mid, &o, node, doc);
                assert(is_pre_insertion(arena, &o, node.obj as int, abstract_self.obj as int, child, doc));
                assert(arena.pending() =~= o.pending().push(DocumentAction::WaitUntilSafeToModifyDom(doc))
                    + pre_insertion_actions(&o, node, doc));
            }
        }
        r
    }
}

impl AbstractNode<ScriptView> {
    /// Appends `node` to the children of this node.
    pub fn AppendChild(self, arena: &mut NodeArena<ScriptView>, node: AbstractNode<ScriptView>) -> (r: Fallible<AbstractNode<ScriptView>>)
        requires
            old(arena).wf(),
            old(arena).valid(self.obj as int),
            old(arena).valid(node.obj as int),
            can_pre_insert(old(arena), node.obj as int, self.obj as int, None),
        ensures
            append_outcome(final(arena), old(arena), self.obj as int, node),
            r == match pre_insert_check(old(arena), node.obj as int, self.obj as int, None) {
                Err(e) => Err::<AbstractNode<ScriptView>, Error>(e),
                Ok(_) => Ok::<AbstractNode<ScriptView>, Error>(node),
            },
    {
        Node::AppendChild(arena, self, node)
    }
}

} // verus!

verus! {

/// The text that node `x` itself holds: its data if it is a text node.
pub open spec fn own_text(a: &NodeArena<ScriptView>, x: int) -> Seq<char> {
    if is_text_type(a.node_at(x).type_id) {
        content_chars(a.node_at(x).content)
    } else {
        Seq::empty()
    }
}

/// The data of the text nodes of the subtree of `x`, in tree order, looking at most
/// `fuel` levels deep.
pub open spec fn text_of(a: &NodeArena<ScriptView>, x: int, fuel: nat) -> Seq<char>
    decreases fuel, 0nat, 0nat,
{
    if fuel == 0 {
        Seq::empty()
    } else {
        own_text(a, x) + text_of_list(a, a.kids(x), (fuel - 1) as nat)
    }
}

/// The data of the text nodes of the subtrees of the nodes of `s`, in order.
pub open spec fn text_of_list(a: &NodeArena<ScriptView>, s: Seq<int>, fuel: nat) -> Seq<char>
    decreases fuel, 1nat, s.len(),
{
    if s.len() == 0 {
        Seq::empty()
    } else {
        text_of_list(a, s.drop_last(), fuel) + text_of(a, s.last(), fuel)
    }
}

/// The data of all the text nodes of the subtree of `x`, in tree order. No subtree of
/// the arena is deeper than the arena has nodes.
pub open spec fn text_content(a: &NodeArena<ScriptView>, x: int) -> Seq<char> {
    text_of(a, x, a.len())
}

/// What `textContent` gives for node `x`.
pub open spec fn text_content_of(a: &NodeArena<ScriptView>, x: int) -> Option<Seq<char>> {
    let t = a.node_at(x).type_id;
    if is_fragment_type(t) || is_element_type(t) {
        Some(text_content(a, x))
    } else if is_characterdata_type(t) {
        Some(content_chars(a.node_at(x).content))
    } else {
        None
    }
}

/// Appends to `out` the data of the text nodes of the subtree of `x`, in tree order.
fn append_text_of(arena: &NodeArena<ScriptView>, x: AbstractNode<ScriptView>, out: &mut String, Ghost(fuel): Ghost<nat>)
    requires
        arena.wf(),
        arena.valid(x.obj as int),
        fuel + arena.anc(x.obj as int).len() >= arena.len(),
    ensures
        final(out)@ == old(out)@ + text_of(arena, x.obj as int, fuel),
    decreases fuel,
{
    let ghost xi = x.obj as int;
    proof {
        arena.lemma_anc_valid(xi);
        assert(arena.node_wf(xi));
    }
    if x.is_text(arena) {
        match &x.node(arena).content {
            NodeContent::Text(t) => {
                out.append(t.element.data.as_str());
            },
            _ => {},
        }
    }
    assert(out@ == old(out)@ + own_text(arena, xi));
    let kids = x.children(arena).collect(arena);
    let ghost ks = arena.kids(xi);
    let ghost f1 = (fuel - 1) as nat;
    let mut j: usize = 0;
    while j < kids.len()
        invariant
            arena.wf(),
            arena.valid(xi),
            fuel >= 1,
            f1 == fuel - 1,
            fuel + arena.anc(xi).len() >= arena.len(),
            ids(kids@) == ks,
            ks == arena.kids(xi),
            j <= kids.len(),
            out@ == old(out)@ + own_text(arena, xi) + text_of_list(arena, ks.subrange(0, j as int), f1),
        decreases kids.len() - j,
    {
        let k = kids[j];
        proof {
            assert(kids@[j as int].obj as int == ks[j as int]);
            assert(arena.node_wf(xi));
            assert(arena.kid_wf(xi, j as int));
            assert(arena.node_wf(k.obj as int));
            assert(arena.anc(k.obj as int) == arena.anc(xi).insert(xi));
            assert(ks.subrange(0, j + 1).drop_last() =~= ks.subrange(0, j as int));
        }
        append_text_of(arena, k, out, Ghost(f1));
        j = j + 1;
    }
    proof {
        assert(ks.subrange(0, ks.len() as int) =~= ks);
    }
}

impl Node<ScriptView> {
    /// The `textContent` attribute: the data of the text nodes below an element or a
    /// document fragment, in tree order; the data of a text or comment node; absent for
    /// a document or a document type.
    pub fn GetTextContent(arena: &NodeArena<ScriptView>, abstract_self: AbstractNode<ScriptView>) -> (r: DOMString)
        requires
            arena.wf(),
            arena.valid(abstract_self.obj as int),
        ensures
            match text_content_of(arena, abstract_self.obj as int) {
                Some(t) => r is Some && r->0@ == t,
                None => r is None,
            },
    {
        proof {
            assert(arena.node_wf(abstract_self.obj as int));
        }
        match abstract_self.type_id(arena) {
            NodeTypeId::DocumentFragmentNodeTypeId | NodeTypeId::ElementNodeTypeId(_) => {
                let mut content = String::new();
                append_text_of(arena, abstract_self, &mut content, Ghost(arena.len()));
                assert(content@ =~= text_content(arena, abstract_self.obj as int));
                Some(content)
            },
            NodeTypeId::CommentNodeTypeId | NodeTypeId::TextNodeTypeId => {
                match &abstract_self.node(arena).content {
                    NodeContent::Text(t) => t.element.Data(),
                    NodeContent::Comment(c) => c.element.Data(),
                    _ => None,
                }
            },
            NodeTypeId::DoctypeNodeTypeId | NodeTypeId::DocumentNodeTypeId(_) => None,
        }
    }
}

} // verus!

verus! {

/// The requests that removing, one after the other, the children `ks` of a node of
/// document `doc` leaves.
pub open spec fn clear_actions(a: &NodeArena<ScriptView>, doc: AbstractDocument, ks: Seq<int>) -> Seq<DocumentAction<ScriptView>>
    decreases ks.len(),
{
    if ks.len() == 0 {
        Seq::empty()
    } else {
        clear_actions(a, doc, ks.drop_last()) + seq![DocumentAction::WaitUntilSafeToModifyDom(doc)]
            + removal_actions(handle(ks.last()), a.node_at(ks.last()).owner_doc->0)
    }
}

/// The parent of `x` once node `s` has lost all its children.
pub open spec fn parent_after_clear(a: &NodeArena<ScriptView>, s: int, x: int) -> Option<int> {
    if a.parent(x) == Some(s) { None } else { a.parent(x) }
}

/// `new` is `old` once node `s` has lost all its children, which become roots.
pub open spec fn is_cleared(new: &NodeArena<ScriptView>, old: &NodeArena<ScriptView>, s: int) -> bool {
    &&& new.wf()
    &&& new.len() == old.len()
    &&& new.kids(s) == Seq::<int>::empty()
    &&& forall|y: int| #![trigger new.kids(y)]
        old.valid(y) && y != s ==> new.kids(y) == old.kids(y)
    &&& forall|x: int| #![trigger new.parent(x)]
        old.valid(x) ==> new.parent(x) == parent_after_clear(old, s, x)
    &&& forall|x: int| #![trigger new.anc(x)]
        old.valid(x) ==> new.anc(x) == if old.anc(x).contains(s) {
            old.anc(x).difference(old.anc(s).insert(s))
        } else {
            old.anc(x)
        }
    &&& forall|x: int| #![trigger new.node_at(x)]
        old.valid(x) ==> new.node_at(x).same_data(old.node_at(x))
}

/// The state after removing the first `j` children of `s` from `o`.
pub open spec fn cleared_upto(cur: &NodeArena<ScriptView>, o: &NodeArena<ScriptView>, s: int, j: int) -> bool {
    let ks = o.kids(s);
    let a = o.anc(s).insert(s);
    &&& cur.wf()
    &&& cur.len() == o.len()
    &&& cur.kids(s) == ks.subrange(j, ks.len() as int)
    &&& forall|y: int| #![trigger cur.kids(y)]
        o.valid(y) && y != s ==> cur.kids(y) == o.kids(y)
    &&& forall|x: int| #![trigger cur.parent(x)]
        o.valid(x) ==> cur.parent(x) == if exists|m: int| 0 <= m < j && ks[m] == x { None } else { o.parent(x) }
    &&& forall|x: int| #![trigger cur.anc(x)]
        o.valid(x) ==> cur.anc(x) == if exists|m: int| 0 <= m < j && #[trigger] o.in_subtree(ks[m], x) {
            o.anc(x).difference(a)
        } else {
            o.anc(x)
        }
    &&& forall|x: int| #![trigger cur.node_at(x)]
        o.valid(x) ==> cur.node_at(x).same_data(o.node_at(x))
}

/// Removing the next child keeps `cleared_upto` going.
proof fn lemma_clear_step(new: &NodeArena<ScriptView>, cur: &NodeArena<ScriptView>, o: &NodeArena<ScriptView>, s: int, j: int)
    requires
        o.wf(),
        o.valid(s),
        0 <= j < o.kids(s).len(),
        cleared_upto(cur, o, s, j),
        new.is_removal(cur, s, o.kids(s)[j]),
    ensures
        cleared_upto(new, o, s, j + 1),
{
    let ks = o.kids(s);
    let a = o.anc(s).insert(s);
    let c = ks[j];
    assert(o.node_wf(s));
    assert(o.kid_wf(s, j));
    assert(o.node_wf(c));
    // The place of `c` among the children left.
    let rest = ks.subrange(j, ks.len() as int);
    assert(rest[0] == c);
    assert(rest.index_of(c) == 0) by {
        assert(rest.contains(c));
        let i = rest.index_of(c);
        assert(rest[i] == c);
        assert(ks[j + i] == c);
    }
    assert(rest.remove(0) =~= ks.subrange(j + 1, ks.len() as int));
    // `c` lies in none of the subtrees removed so far.
    assert forall|m: int| 0 <= m < j implies !#[trigger] o.in_subtree(ks[m], c) by {
        o.lemma_sibling_subtrees_disjoint(s, j, m, c);
    }
    assert(cur.anc(c) == a);
    assert forall|x: int| #![trigger new.parent(x)]
        o.valid(x) implies new.parent(x) == if exists|m: int| 0 <= m < j + 1 && ks[m] == x { None } else { o.parent(x) } by {
        if x == c {
            assert(ks[j] == x);
        } else {
            if exists|m: int| 0 <= m < j + 1 && ks[m] == x {
                let m = choose|m: int| 0 <= m < j + 1 && ks[m] == x;
                assert(m < j);
            }
        }
    }
    assert forall|x: int| #![trigger new.anc(x)]
        o.valid(x) implies new.anc(x) == if exists|m: int| 0 <= m < j + 1 && #[trigger] o.in_subtree(ks[m], x) {
            o.anc(x).difference(a)
        } else {
            o.anc(x)
        } by {
        assert(new.anc(x) == cur.anc_after_remove(c, x));
        if o.in_subtree(c, x) {
            assert forall|m: int| 0 <= m < j implies !#[trigger] o.in_subtree(ks[m], x) by {
                o.lemma_sibling_subtrees_disjoint(s, j, m, x);
            }
            assert(cur.anc(x) == o.anc(x));
            assert(cur.in_subtree(c, x));
            assert(exists|m: int| 0 <= m < j + 1 && #[trigger] o.in_subtree(ks[m], x));
        } else {
            assert(!cur.in_subtree(c, x));
            if exists|m: int| 0 <= m < j + 1 && #[trigger] o.in_subtree(ks[m], x) {
                let m = choose|m: int| 0 <= m < j + 1 && #[trigger] o.in_subtree(ks[m], x);
                assert(m != j);
                assert(exists|m: int| 0 <= m < j && #[trigger] o.in_subtree(ks[m], x));
            } else {
                assert(!exists|m: int| 0 <= m < j && #[trigger] o.in_subtree(ks[m], x));
            }
        }
    }
}

impl Node<ScriptView> {
    /// Removes all the children of `abstract_self`, first to last.
    fn remove_all_children(arena: &mut NodeArena<ScriptView>, abstract_self: AbstractNode<ScriptView>)
        requires
            old(arena).wf(),
            old(arena).valid(abstract_self.obj as int),
            old(arena).kids(abstract_self.obj as int).len() > 0 ==> old(arena).node_at(abstract_self.obj as int).owner_doc is Some,
        ensures
            is_cleared(final(arena), old(arena), abstract_self.obj as int),
            final(arena).pending() == old(arena).pending() + clear_actions(
                old(arena),
                old(arena).node_at(abstract_self.obj as int).owner_doc->0,
                old(arena).kids(abstract_self.obj as int),
            ),
    {
        let ghost o = *old(arena);
        let ghost si = abstract_self.obj as int;
        let ghost ks = o.kids(si);
        let ghost doc = o.node_at(si).owner_doc->0;
        let children = abstract_self.children(arena).collect(arena);
        proof {
            assert(ks.subrange(0, ks.len() as int) =~= ks);
            assert(clear_actions(&o, doc, ks.subrange(0, 0)) =~= Seq::empty());
            assert(arena.pending() =~= o.pending() + Seq::empty());
            assert forall|x: int| #![trigger arena.anc(x)] o.valid(x) implies arena.anc(x) == if exists|m: int| 0 <= m < 0 && #[trigger] o.in_subtree(ks[m], x) {
                o.anc(x).difference(o.anc(si).insert(si))
            } else {
                o.anc(x)
            } by {}
        }
        let mut j: usize = 0;
        while j < children.len()
            invariant
                o.wf(),
                o.valid(si),
                si == abstract_self.obj as int,
                ks == o.kids(si),
                doc == o.node_at(si).owner_doc->0,
                ks.len() > 0 ==> o.node_at(si).owner_doc is Some,
                ids(children@) == ks,
                j <= children.len(),
                cleared_upto(arena, &o, si, j as int),
                arena.pending() == o.pending() + clear_actions(&o, doc, ks.subrange(0, j as int)),
            decreases children.len() - j,
        {
            let c = children[j];
            let ghost cur = *arena;
            proof {
                assert(children@[j as int].obj as int == ks[j as int]);
                assert(o.node_wf(si));
                assert(o.kid_wf(si, j as int));
                assert(o.kids(si).no_duplicates());
                assert(!exists|m: int| 0 <= m < j && ks[m] == ks[j as int]);
                assert(cur.parent(c.obj as int) == Some(si));
                assert(cur.node_at(si).same_data(o.node_at(si)));
            }
            let _ = Node::RemoveChild(arena, abstract_self, c);
            proof {
                lemma_clear_step(arena, &cur, &o, si, j as int);
                assert(cur.node_at(c.obj as int).same_data(o.node_at(c.obj as int)));
                assert(c == handle::<ScriptView>(ks[j as int]));
                assert(ks.subrange(0, j + 1).drop_last() =~= ks.subrange(0, j as int));
                assert(arena.pending() =~= o.pending() + clear_actions(&o, doc, ks.subrange(0, j + 1)));
            }
            j = j + 1;
        }
        proof {
            assert(ks.subrange(0, ks.len() as int) =~= ks);
            assert(arena.kids(si) =~= Seq::<int>::empty());
            assert forall|x: int| #![trigger arena.parent(x)] o.valid(x) implies arena.parent(x) == parent_after_clear(&o, si, x) by {
                if o.parent(x) == Some(si) {
                    assert(o.node_wf(x));
                    let k = choose|k: int| 0 <= k < ks.len() && ks[k] == x;
                    assert(exists|m: int| 0 <= m < ks.len() && ks[m] == x);
                } else if exists|m: int| 0 <= m < ks.len() && ks[m] == x {
                    let m = choose|m: int| 0 <= m < ks.len() && ks[m] == x;
                    assert(o.node_wf(si));
                    assert(o.kid_wf(si, m));
                }
            }
            assert forall|x: int| #![trigger arena.anc(x)] o.valid(x) implies arena.anc(x) == if o.anc(x).contains(si) {
                o.anc(x).difference(o.anc(si).insert(si))
            } else {
                o.anc(x)
            } by {
                if o.anc(x).contains(si) {
                    o.lemma_below_child(si, x);
                    let c = choose|c: int| #[trigger] o.kids(si).contains(c) && o.in_subtree(c, x);
                    let m = choose|m: int| 0 <= m < ks.len() && ks[m] == c;
                    assert(o.in_subtree(ks[m], x));
                } else if exists|m: int| 0 <= m < ks.len() && #[trigger] o.in_subtree(ks[m], x) {
                    let m = choose|m: int| 0 <= m < ks.len() && #[trigger] o.in_subtree(ks[m], x);
                    assert(o.node_wf(si));
                    assert(o.kid_wf(si, m));
                    assert(o.node_wf(ks[m]));
                    if ks[m] != x {
                        o.lemma_anc_trans(ks[m], x);
                    }
                }
            }
        }
    }
}

} // verus!

verus! {

impl Text {
    /// A new text node with data `text` in `document`.
    pub fn new(text: String, document: AbstractDocument) -> (r: Node<ScriptView>)
        ensures
            r.type_id == NodeTypeId::TextNodeTypeId,
            content_chars(r.content) == text@,
            r.unlinked(),
            r.owner_doc == Some(document),
            r.child_list is None,
            r.layout_data@.is_fresh(),
            r.wf(),
    {
        let mut node = Node::new(NodeTypeId::TextNodeTypeId, document);
        node.content = NodeContent::Text(Text { element: CharacterData { data: text } });
        node
    }
}

impl AbstractDocument {
    /// Creates a text node in this document, with the given data.
    pub fn CreateTextNode(self, arena: &mut NodeArena<ScriptView>, data: &DOMString) -> (r: AbstractNode<ScriptView>)
        requires
            old(arena).wf(),
            old(arena).is_document_handle(self),
            old(arena).len() < usize::MAX,
        ensures
            final(arena).wf(),
            r.obj == old(arena).len(),
            final(arena).len() == old(arena).len() + 1,
            final(arena).node_at(r.obj as int).type_id == NodeTypeId::TextNodeTypeId,
            content_chars(final(arena).node_at(r.obj as int).content) == dom_str_chars(*data),
            final(arena).node_at(r.obj as int).owner_doc == Some(self),
            final(arena).node_at(r.obj as int).unlinked(),
            final(arena).kids(r.obj as int) == Seq::<int>::empty(),
            final(arena).anc(r.obj as int) == Set::<int>::empty(),
            final(arena).same_outside(old(arena), Set::empty()),
            final(arena).pending() == old(arena).pending(),
    {
        let node = Text::new(null_str_as_empty(data), self);
        Node::as_abstract_node(arena, node)
    }
}

impl Node<ScriptView> {
    // http://dom.spec.whatwg.org/#concept-node-replace-all
    /// Removes all the children of `abstract_self`, then appends `node`, if given.
    pub fn replace_all(
        arena: &mut NodeArena<ScriptView>,
        abstract_self: AbstractNode<ScriptView>,
        node: Option<AbstractNode<ScriptView>>,
    )
        requires
            old(arena).wf(),
            old(arena).valid(abstract_self.obj as int),
            (old(arena).kids(abstract_self.obj as int).len() > 0 || node is Some)
                ==> old(arena).node_at(abstract_self.obj as int).owner_doc is Some,
            node matches Some(n) ==> {
                &&& old(arena).valid(n.obj as int)
                &&& pre_insert_check(old(arena), n.obj as int, abstract_self.obj as int, None) is Ok
                    ==> old(arena).node_at(n.obj as int).owner_doc is Some
            },
        ensures
            final(arena).wf(),
            exists|mid: NodeArena<ScriptView>| {
                &&& #[trigger] is_cleared(&mid, old(arena), abstract_self.obj as int)
                &&& mid.pending() == old(arena).pending() + clear_actions(
                    old(arena),
                    old(arena).node_at(abstract_self.obj as int).owner_doc->0,
                    old(arena).kids(abstract_self.obj as int),
                )
                &&& match node {
                    None => *final(arena) == mid,
                    Some(n) => append_outcome(final(arena), &mid, abstract_self.obj as int, n),
                }
            },
    {
        let ghost o = *old(arena);
        let ghost si = abstract_self.obj as int;
        //FIXME: We should batch document notifications that occur here
        Node::remove_all_children(arena, abstract_self);
        let ghost mid = *arena;
        match node {
            None => {},
            Some(node) => {
                proof {
                    let ni = node.obj as int;
                    assert(o.node_wf(si));
                    assert(o.node_wf(ni));
                    assert(mid.anc(si) == o.anc(si));
                    assert(mid.node_at(si).same_data(o.node_at(si)));
                    assert(mid.node_at(ni).same_data(o.node_at(ni)));
                    assert(pre_insert_check(&mid, ni, si, None) == pre_insert_check(&o, ni, si, None));
                    if ni != si {
                        assert(mid.kids(ni) == o.kids(ni));
                    }
                }
                let _ = Node::AppendChild(arena, abstract_self, node);
            },
        }
    }
}

} // verus!

verus! {

/// `SetTextContent` treats an absent string and the empty string alike.
pub open spec fn is_empty_dom_str(v: DOMString) -> bool {
    dom_str_chars(v).len() == 0
}

/// `new` is `old` once the element or document fragment `s` has had its text content
/// set to `value`: its children are gone, and unless `value` is empty, a new text node
/// with `value` for data, in place `old.len()`, is its only child.
pub open spec fn is_text_replacement(
    new: &NodeArena<ScriptView>,
    old: &NodeArena<ScriptView>,
    s: int,
    value: DOMString,
) -> bool {
    let n = old.len() as int;
    let e = is_empty_dom_str(value);
    let doc = old.node_at(s).owner_doc->0;
    &&& new.wf()
    &&& new.len() == if e { n } else { n + 1 }
    &&& new.kids(s) == if e { Seq::<int>::empty() } else { seq![n] }
    &&& !e ==> {
        &&& new.parent(n) == Some(s)
        &&& new.kids(n) == Seq::<int>::empty()
        &&& new.node_at(n).type_id == NodeTypeId::TextNodeTypeId
        &&& content_chars(new.node_at(n).content) == dom_str_chars(value)
        &&& new.node_at(n).owner_doc == Some(doc)
    }
    &&& forall|y: int| #![trigger new.kids(y)]
        old.valid(y) && y != s ==> new.kids(y) == old.kids(y)
    &&& forall|x: int| #![trigger new.parent(x)]
        old.valid(x) ==> new.parent(x) == parent_after_clear(old, s, x)
    &&& forall|x: int| #![trigger new.anc(x)]
        old.valid(x) ==> new.anc(x) == if old.anc(x).contains(s) {
            old.anc(x).difference(old.anc(s).insert(s))
        } else {
            old.anc(x)
        }
    &&& forall|x: int| #![trigger new.node_at(x)]
        old.valid(x) ==> new.node_at(x).same_data(old.node_at(x))
    &&& new.pending() == old.pending() + clear_actions(old, doc, old.kids(s)) + if e {
        Seq::empty()
    } else {
        seq![DocumentAction::WaitUntilSafeToModifyDom(doc)] + insertion_actions(handle(n), doc)
    }
}

/// A node without children is nobody's ancestor.
proof fn lemma_childless_not_ancestor(a: &NodeArena<ScriptView>, t: int)
    requires
        a.wf(),
        a.valid(t),
        a.kids(t).len() == 0,
    ensures
        forall|x: int| a.valid(x) ==> !#[trigger] a.anc(x).contains(t),
{
    assert forall|x: int| a.valid(x) implies !#[trigger] a.anc(x).contains(t) by {
        if a.anc(x).contains(t) {
            a.lemma_below_child(t, x);
        }
    }
}

impl Node<ScriptView> {
    /// Sets the `textContent` attribute. An element or a document fragment loses its
    /// children and, unless `value` is empty, gets a new text node holding `value`; a
    /// text or comment node gets `value` for its data; a document or a document type is
    /// left as it is.
    pub fn SetTextContent(
        arena: &mut NodeArena<ScriptView>,
        abstract_self: AbstractNode<ScriptView>,
        value: &DOMString,
    ) -> (r: ErrorResult)
        requires
            old(arena).wf(),
            old(arena).valid(abstract_self.obj as int),
            ({
                let t = old(arena).node_at(abstract_self.obj as int).type_id;
                &&& (is_fragment_type(t) || is_element_type(t)) && !is_empty_dom_str(*value)
                    ==> old(arena).len() < usize::MAX
                &&& (is_fragment_type(t) || is_element_type(t))
                    && (!is_empty_dom_str(*value) || old(arena).kids(abstract_self.obj as int).len() > 0)
                    ==> old(arena).node_at(abstract_self.obj as int).owner_doc is Some
                &&& is_characterdata_type(t) ==> old(arena).node_at(abstract_self.obj as int).owner_doc is Some
            }),
        ensures
            r is Ok,
            ({
                let s = abstract_self.obj as int;
                let t = old(arena).node_at(s).type_id;
                let doc = old(arena).node_at(s).owner_doc->0;
                &&& (is_fragment_type(t) || is_element_type(t)) ==> is_text_replacement(final(arena), old(arena), s, *value)
                &&& is_characterdata_type(t) ==> {
                    &&& final(arena).wf()
                    &&& final(arena).kid_lists() == old(arena).kid_lists()
                    &&& final(arena).anc_lists() == old(arena).anc_lists()
                    &&& final(arena).nodes().len() == old(arena).nodes().len()
                    &&& forall|x: int| #![trigger final(arena).node_at(x)]
                        old(arena).valid(x) && x != s ==> final(arena).node_at(x) == old(arena).node_at(x)
                    &&& final(arena).node_at(s) == (Node { content: final(arena).node_at(s).content, ..old(arena).node_at(s) })
                    &&& content_fits(t, final(arena).node_at(s).content)
                    &&& content_chars(final(arena).node_at(s).content) == dom_str_chars(*value)
                    &&& final(arena).pending() == old(arena).pending().push(
                        DocumentAction::WaitUntilSafeToModifyDom(doc),
                    ).push(DocumentAction::ContentChanged(doc))
                }
                &&& (is_doctype_type(t) || is_document_type(t)) ==> *final(arena) == *old(arena)
            }),
    {
        let ghost o = *old(arena);
        let ghost si = abstract_self.obj as int;
        proof {
            assert(o.node_wf(si));
        }
        let is_empty = match value {
            Some(v) => v.as_str().is_empty(),
            None => true,
        };
        assert(is_empty == is_empty_dom_str(*value));
        match abstract_self.type_id(arena) {
            NodeTypeId::DocumentFragmentNodeTypeId | NodeTypeId::ElementNodeTypeId(_) => {
                if is_empty {
                    Node::replace_all(arena, abstract_self, None);
                    proof {
                        let mid = choose|mid: NodeArena<ScriptView>| {
                            &&& #[trigger] is_cleared(&mid, &o, si)
                            &&& mid.pending() == o.pending() + clear_actions(&o, o.node_at(si).owner_doc->0, o.kids(si))
                            &&& *arena == mid
                        };
                        assert(arena.pending() =~= o.pending() + clear_actions(&o, o.node_at(si).owner_doc->0, o.kids(si)) + Seq::empty());
                    }
                } else {
                    let document = abstract_self.node(arena).owner_doc();
                    let node = document.CreateTextNode(arena, value);
                    let ghost m1 = *arena;
                    let ghost ti = node.obj as int;
                    proof {
                        assert(m1.node_at(si) == o.node_at(si));
                        assert(m1.kids(si) == o.kids(si));
                        assert(m1.parent(ti) is None);
                        assert(m1.node_wf(ti));
                        assert(pre_insert_check(&m1, ti, si, None) is Ok) by {
                            if m1.in_subtree(ti, si) {
                                assert(m1.anc(si) == o.anc(si));
                                o.lemma_anc_valid(si);
                            }
                        }
                    }
                    Node::replace_all(arena, abstract_self, Some(node));
                    proof {
                        let doc = document;
                        let mid = choose|mid: NodeArena<ScriptView>| {
                            &&& #[trigger] is_cleared(&mid, &m1, si)
                            &&& mid.pending() == m1.pending() + clear_actions(&m1, m1.node_at(si).owner_doc->0, m1.kids(si))
                            &&& append_outcome(arena, &mid, si, node)
                        };
                        assert(mid.parent(ti) == None::<int>);
                        assert(mid.kids(ti) == Seq::<int>::empty());
                        assert(mid.node_at(si).same_data(m1.node_at(si)));
                        assert(mid.node_at(ti).same_data(m1.node_at(ti)));
                        assert(mid.anc(si) == m1.anc(si));
                        assert(!mid.in_subtree(ti, si)) by {
                            lemma_childless_not_ancestor(&mid, ti);
                        }
                        assert(pre_insert_check(&mid, ti, si, None) is Ok);
                        lemma_childless_not_ancestor(&mid, ti);
                        assert(insertion_place(&mid, ti, si, None) == 0);
                        assert(mid.kids_detached(ti, si) == Seq::<int>::empty());
                        assert(arena.kids(si) =~= seq![ti]);
                        assert(clear_actions(&m1, doc, m1.kids(si)) == clear_actions(&o, doc, o.kids(si))) by {
                            assert forall|i: int| 0 <= i < o.kids(si).len() implies m1.node_at(#[trigger] o.kids(si)[i]).owner_doc
                                == o.node_at(o.kids(si)[i]).owner_doc by {
                                assert(o.kid_wf(si, i));
                            }
                            lemma_clear_actions_same(&m1, &o, doc, o.kids(si));
                        }
                        assert(node == handle::<ScriptView>(ti));
                        assert(arena.pending() =~= o.pending() + clear_actions(&o, doc, o.kids(si))
                            + (seq![DocumentAction::WaitUntilSafeToModifyDom(doc)] + insertion_actions(handle(ti), doc)));
                        assert forall|x: int| #![trigger arena.anc(x)] o.valid(x) implies arena.anc(x) == if o.anc(x).contains(si) {
                            o.anc(x).difference(o.anc(si).insert(si))
                        } else {
                            o.anc(x)
                        } by {
                            assert(x != ti);
                            assert(!mid.in_subtree(ti, x));
                            assert(mid.anc(x) == if m1.anc(x).contains(si) {
                                m1.anc(x).difference(m1.anc(si).insert(si))
                            } else {
                                m1.anc(x)
                            });
                        }
                        assert forall|x: int| #![trigger arena.node_at(x)] o.valid(x) implies arena.node_at(x).same_data(o.node_at(x)) by {
                            assert(mid.node_at(x).same_data(m1.node_at(x)));
                            assert(!mid.in_subtree(ti, x));
                        }
                    }
                }
            },
            NodeTypeId::CommentNodeTypeId | NodeTypeId::TextNodeTypeId => {
                Node::wait_until_safe_to_modify_dom(arena, abstract_self);
                let data = null_str_as_empty(value);
                let content = match abstract_self.type_id(arena) {
                    NodeTypeId::TextNodeTypeId => NodeContent::Text(Text { element: CharacterData { data: data } }),
                    _ => NodeContent::Comment(Comment { element: CharacterData { data: data } }),
                };
                proof {
                    arena.lemma_tree_same_views(&o);
                }
                arena.set_content(abstract_self, content);
                // Notify the document that the content of this node is different
                let document = abstract_self.node(arena).owner_doc();
                arena.push_action(DocumentAction::ContentChanged(document));
            },
            NodeTypeId::DoctypeNodeTypeId | NodeTypeId::DocumentNodeTypeId(_) => {},
        }
        Ok(())
    }
}

/// The requests that clearing a node leaves depend only on the owners of its children.
proof fn lemma_clear_actions_same(a: &NodeArena<ScriptView>, b: &NodeArena<ScriptView>, doc: AbstractDocument, ks: Seq<int>)
    requires
        forall|i: int| 0 <= i < ks.len() ==> a.node_at(#[trigger] ks[i]).owner_doc == b.node_at(ks[i]).owner_doc,
    ensures
        clear_actions(a, doc, ks) == clear_actions(b, doc, ks),
    decreases ks.len(),
{
    if ks.len() > 0 {
        assert(a.node_at(ks[ks.len() - 1]).owner_doc == b.node_at(ks[ks.len() - 1]).owner_doc);
        lemma_clear_actions_same(a, b, doc, ks.drop_last());
    }
}

} // verus!

verus! {

impl Comment {
    /// A new comment node with data `text` in `document`.
    pub fn new(text: String, document: AbstractDocument) -> (r: Node<ScriptView>)
        ensures
            r.type_id == NodeTypeId::CommentNodeTypeId,
            content_chars(r.content) == text@,
            r.unlinked(),
            r.owner_doc == Some(document),
            r.child_list is None,
            r.layout_data@.is_fresh(),
            r.wf(),
    {
        let mut node = Node::new(NodeTypeId::CommentNodeTypeId, document);
        node.content = NodeContent::Comment(Comment { element: CharacterData { data: text } });
        node
    }
}

impl DocumentType {
    /// A new document type node in `document`.
    pub fn new(
        name: String,
        public_id: Option<String>,
        system_id: Option<String>,
        force_quirks: bool,
        document: AbstractDocument,
    ) -> (r: Node<ScriptView>)
        ensures
            r.type_id == NodeTypeId::DoctypeNodeTypeId,
            r.content == NodeContent::Doctype(DocumentType { name, public_id, system_id, force_quirks }),
            r.unlinked(),
            r.owner_doc == Some(document),
            r.child_list is None,
            r.layout_data@.is_fresh(),
            r.wf(),
    {
        let mut node = Node::new(NodeTypeId::DoctypeNodeTypeId, document);
        node.content = NodeContent::Doctype(DocumentType { name, public_id, system_id, force_quirks });
        node
    }
}

impl Element {
    /// A new element node of kind `type_id`, with tag name `tag_name`, in `document`.
    pub fn new(type_id: ElementTypeId, tag_name: String, document: AbstractDocument) -> (r: Node<ScriptView>)
        ensures
            r.type_id == NodeTypeId::ElementNodeTypeId(type_id),
            r.content == NodeContent::Element(Element { tag_name }),
            r.unlinked(),
            r.owner_doc == Some(document),
            r.child_list is None,
            r.layout_data@.is_fresh(),
            r.wf(),
    {
        let mut node = Node::new(NodeTypeId::ElementNodeTypeId(type_id), document);
        node.content = NodeContent::Element(Element { tag_name });
        node
    }
}

/// The `nodeName` of a node: the tag name of an element, the name of a document type,
/// and a fixed name for the other kinds.
pub open spec fn node_name_chars(n: Node<ScriptView>) -> Seq<char> {
    match n.content {
        NodeContent::Element(e) => e.tag_name@,
        NodeContent::Doctype(d) => d.name@,
        _ => match n.type_id {
            NodeTypeId::CommentNodeTypeId => "#comment"@,
            NodeTypeId::TextNodeTypeId => "#text"@,
            NodeTypeId::DocumentFragmentNodeTypeId => "#document-fragment"@,
            _ => "#document"@,
        },
    }
}

impl Node<ScriptView> {
    /// The `nodeName` attribute.
    pub fn NodeName(&self) -> (r: DOMString)
        requires
            self.wf(),
        ensures
            r is Some,
            r->0@ == node_name_chars(*self),
    {
        Some(match self.type_id {
            NodeTypeId::ElementNodeTypeId(_) => {
                match &self.content {
                    NodeContent::Element(element) => element.TagName().unwrap(),
                    _ => String::new(),
                }
            },
            NodeTypeId::CommentNodeTypeId => String::from_str("#comment"),
            NodeTypeId::TextNodeTypeId => String::from_str("#text"),
            NodeTypeId::DoctypeNodeTypeId => {
                match &self.content {
                    NodeContent::Doctype(doctype) => doctype.name.clone(),
                    _ => String::new(),
                }
            },
            NodeTypeId::DocumentFragmentNodeTypeId => String::from_str("#document-fragment"),
            NodeTypeId::DocumentNodeTypeId(_) => String::from_str("#document"),
        })
    }

    /// The `childNodes` attribute: the live list of the children of `abstract_self`,
    /// made on the first call and kept for the later ones.
    pub fn ChildNodes(arena: &mut NodeArena<ScriptView>, abstract_self: AbstractNode<ScriptView>) -> (r: NodeList)
        requires
            old(arena).wf(),
            old(arena).valid(abstract_self.obj as int),
            old(arena).node_at(abstract_self.obj as int).child_list is None
                ==> old(arena).node_at(abstract_self.obj as int).owner_doc is Some,
        ensures
            final(arena).wf(),
            final(arena).pending() == old(arena).pending(),
            match old(arena).node_at(abstract_self.obj as int).child_list {
                Some(list) => r == list && *final(arena) == *old(arena),
                None => {
                    &&& r.root == abstract_self
                    &&& final(arena).data_updated(
                        old(arena),
                        abstract_self.obj as int,
                        Node { child_list: Some(r), ..old(arena).node_at(abstract_self.obj as int) },
                    )
                },
            },
    {
        match abstract_self.node(arena).child_list {
            None => {
                let _document = abstract_self.node(arena).owner_doc();
                let list = NodeList::new_child_list(abstract_self);
                arena.set_child_list(abstract_self, list);
                list
            },
            Some(list) => list,
        }
    }
}

} // verus!
