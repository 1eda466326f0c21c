use lib::node::{AbstractNode, Node};
use lib::tree::{DocumentAction, NodeArena};
use lib::types::{
    AbstractDocument, Comment, DocumentType, DocumentTypeId, Element, ElementTypeId, Error,
    NodeTypeId, ScriptView, Text,
};

fn new_document(arena: &mut NodeArena<ScriptView>) -> (AbstractDocument, AbstractNode<ScriptView>) {
    let n = Node::new_without_doc(NodeTypeId::DocumentNodeTypeId(DocumentTypeId::HTMLDocumentTypeId));
    let h = Node::as_abstract_node(arena, n);
    let doc = AbstractDocument { node: h.obj };
    arena.set_owner_doc(h, doc);
    (doc, h)
}

fn element(arena: &mut NodeArena<ScriptView>, doc: AbstractDocument, tag: &str) -> AbstractNode<ScriptView> {
    let n = Element::new(ElementTypeId::HTMLDivElementTypeId, tag.to_string(), doc);
    Node::as_abstract_node(arena, n)
}

fn text(arena: &mut NodeArena<ScriptView>, doc: AbstractDocument, data: &str) -> AbstractNode<ScriptView> {
    let n = Text::new(data.to_string(), doc);
    Node::as_abstract_node(arena, n)
}

fn obj(o: Option<AbstractNode<ScriptView>>) -> Option<usize> {
    o.map(|a| a.obj)
}

fn child_ids(arena: &NodeArena<ScriptView>, p: AbstractNode<ScriptView>) -> Vec<usize> {
    p.children(arena).collect(arena).iter().map(|a| a.obj).collect()
}

fn append(arena: &mut NodeArena<ScriptView>, p: AbstractNode<ScriptView>, c: AbstractNode<ScriptView>) {
    let r = p.AppendChild(arena, c);
    assert_eq!(r.map(|a| a.obj), Ok(c.obj));
}

#[test]
fn append_child_links_children_in_order() {
    let mut arena = NodeArena::new();
    let (doc, _d) = new_document(&mut arena);
    let p = element(&mut arena, doc, "div");
    let a = element(&mut arena, doc, "a");
    let b = text(&mut arena, doc, "b");
    let c = element(&mut arena, doc, "c");
    append(&mut arena, p, a);
    append(&mut arena, p, b);
    append(&mut arena, p, c);
    assert_eq!(child_ids(&arena, p), vec![a.obj, b.obj, c.obj]);
    assert_eq!(obj(p.first_child(&arena)), Some(a.obj));
    assert_eq!(obj(p.last_child(&arena)), Some(c.obj));
    assert_eq!(obj(a.prev_sibling(&arena)), None);
    assert_eq!(obj(a.next_sibling(&arena)), Some(b.obj));
    assert_eq!(obj(b.prev_sibling(&arena)), Some(a.obj));
    assert_eq!(obj(b.next_sibling(&arena)), Some(c.obj));
    assert_eq!(obj(c.next_sibling(&arena)), None);
    assert_eq!(obj(b.parent_node(&arena)), Some(p.obj));
    assert!(p.is_root(&arena));
    assert!(!b.is_root(&arena));
    assert!(p.node(&arena).HasChildNodes());
    assert!(!a.node(&arena).HasChildNodes());
}

#[test]
fn append_existing_child_moves_it_to_the_end() {
    let mut arena = NodeArena::new();
    let (doc, _d) = new_document(&mut arena);
    let p = element(&mut arena, doc, "div");
    let a = element(&mut arena, doc, "a");
    let b = element(&mut arena, doc, "b");
    append(&mut arena, p, a);
    append(&mut arena, p, b);
    append(&mut arena, p, a);
    assert_eq!(child_ids(&arena, p), vec![b.obj, a.obj]);
    assert_eq!(obj(b.prev_sibling(&arena)), None);
    assert_eq!(obj(a.prev_sibling(&arena)), Some(b.obj));
}

#[test]
fn append_moves_node_between_parents() {
    let mut arena = NodeArena::new();
    let (doc, _d) = new_document(&mut arena);
    let p = element(&mut arena, doc, "p");
    let q = element(&mut arena, doc, "q");
    let a = element(&mut arena, doc, "a");
    let b = element(&mut arena, doc, "b");
    append(&mut arena, p, a);
    append(&mut arena, p, b);
    append(&mut arena, q, a);
    assert_eq!(child_ids(&arena, p), vec![b.obj]);
    assert_eq!(child_ids(&arena, q), vec![a.obj]);
    assert_eq!(obj(a.parent_node(&arena)), Some(q.obj));
    assert_eq!(obj(b.prev_sibling(&arena)), None);
}

#[test]
fn append_ancestor_is_a_hierarchy_request_error() {
    let mut arena = NodeArena::new();
    let (doc, _d) = new_document(&mut arena);
    let p = element(&mut arena, doc, "p");
    let c = element(&mut arena, doc, "c");
    append(&mut arena, p, c);
    let r = c.AppendChild(&mut arena, p);
    assert_eq!(r.map(|a| a.obj), Err(Error::HierarchyRequest));
    let r = p.AppendChild(&mut arena, p);
    assert_eq!(r.map(|a| a.obj), Err(Error::HierarchyRequest));
    assert_eq!(child_ids(&arena, p), vec![c.obj]);
    assert!(p.is_root(&arena));
}

#[test]
fn append_to_text_or_comment_is_a_hierarchy_request_error() {
    let mut arena = NodeArena::new();
    let (doc, _d) = new_document(&mut arena);
    let t = text(&mut arena, doc, "t");
    let cm = Node::as_abstract_node(&mut arena, Comment::new("c".to_string(), doc));
    let e = element(&mut arena, doc, "e");
    assert_eq!(t.AppendChild(&mut arena, e).map(|a| a.obj), Err(Error::HierarchyRequest));
    assert_eq!(cm.AppendChild(&mut arena, e).map(|a| a.obj), Err(Error::HierarchyRequest));
    assert!(e.is_root(&arena));
}

#[test]
fn append_document_is_a_hierarchy_request_error() {
    let mut arena = NodeArena::new();
    let (doc, d) = new_document(&mut arena);
    let e = element(&mut arena, doc, "e");
    assert_eq!(e.AppendChild(&mut arena, d).map(|a| a.obj), Err(Error::HierarchyRequest));
}

#[test]
fn text_may_not_go_under_a_document() {
    let mut arena = NodeArena::new();
    let (doc, d) = new_document(&mut arena);
    let t = text(&mut arena, doc, "t");
    assert_eq!(d.AppendChild(&mut arena, t).map(|a| a.obj), Err(Error::HierarchyRequest));
    assert!(t.is_root(&arena));
    assert_eq!(obj(d.first_child(&arena)), None);
    let e = element(&mut arena, doc, "e");
    append(&mut arena, e, t);
    let f = element(&mut arena, doc, "f");
    append(&mut arena, f, t);
    assert_eq!(obj(t.parent_node(&arena)), Some(f.obj));
}

#[test]
fn pre_insert_of_text_into_document_without_owner_is_refused() {
    let mut arena = NodeArena::new();
    let d = Node::as_abstract_node(
        &mut arena,
        Node::new_without_doc(NodeTypeId::DocumentNodeTypeId(DocumentTypeId::HTMLDocumentTypeId)),
    );
    let t = Node::as_abstract_node(&mut arena, Node::new_without_doc(NodeTypeId::TextNodeTypeId));
    assert_eq!(Node::pre_insert(&mut arena, t, d, None).map(|a| a.obj), Err(Error::HierarchyRequest));
    assert!(t.is_root(&arena));
    assert_eq!(obj(d.first_child(&arena)), None);
    assert_eq!(obj(d.last_child(&arena)), None);
}

#[test]
fn doctype_may_only_go_under_a_document() {
    let mut arena = NodeArena::new();
    let (doc, d) = new_document(&mut arena);
    let e = element(&mut arena, doc, "e");
    let dt = Node::as_abstract_node(&mut arena, DocumentType::new("html".to_string(), None, None, false, doc));
    assert_eq!(e.AppendChild(&mut arena, dt).map(|a| a.obj), Err(Error::HierarchyRequest));
    assert!(dt.is_root(&arena));
    append(&mut arena, d, dt);
    assert_eq!(obj(dt.parent_node(&arena)), Some(d.obj));
}

#[test]
fn insert_before_puts_node_before_child() {
    let mut arena = NodeArena::new();
    let (doc, _d) = new_document(&mut arena);
    let p = element(&mut arena, doc, "p");
    let a = element(&mut arena, doc, "a");
    let n = text(&mut arena, doc, "n");
    let m = element(&mut arena, doc, "m");
    let x = element(&mut arena, doc, "x");
    append(&mut arena, p, a);
    assert_eq!(Node::InsertBefore(&mut arena, p, n, Some(a)).map(|r| r.obj), Ok(n.obj));
    assert_eq!(child_ids(&arena, p), vec![n.obj, a.obj]);
    assert_eq!(Node::InsertBefore(&mut arena, p, m, None).map(|r| r.obj), Ok(m.obj));
    assert_eq!(child_ids(&arena, p), vec![n.obj, a.obj, m.obj]);
    assert_eq!(Node::InsertBefore(&mut arena, p, m, Some(n)).map(|r| r.obj), Ok(m.obj));
    assert_eq!(child_ids(&arena, p), vec![m.obj, n.obj, a.obj]);
    assert_eq!(Node::InsertBefore(&mut arena, p, x, Some(x)).map(|r| r.obj), Err(Error::NotFound));
    assert_eq!(Node::InsertBefore(&mut arena, p, n, Some(n)).map(|r| r.obj), Ok(n.obj));
    assert_eq!(child_ids(&arena, p), vec![m.obj, n.obj, a.obj]);
    assert_eq!(Node::InsertBefore(&mut arena, a, p, None).map(|r| r.obj), Err(Error::HierarchyRequest));
}

#[test]
fn append_empty_fragment_only_detaches_it() {
    let mut arena = NodeArena::new();
    let (doc, _d) = new_document(&mut arena);
    let p = element(&mut arena, doc, "p");
    let q = element(&mut arena, doc, "q");
    let f = Node::as_abstract_node(&mut arena, Node::new(NodeTypeId::DocumentFragmentNodeTypeId, doc));
    append(&mut arena, q, f);
    append(&mut arena, p, f);
    assert_eq!(child_ids(&arena, p), Vec::<usize>::new());
    assert_eq!(child_ids(&arena, q), Vec::<usize>::new());
    assert!(f.is_root(&arena));
}

#[test]
fn append_adopts_the_subtree_into_the_parent_document() {
    let mut arena = NodeArena::new();
    let (doc1, _d1) = new_document(&mut arena);
    let (doc2, _d2) = new_document(&mut arena);
    let p = element(&mut arena, doc2, "p");
    let a = element(&mut arena, doc1, "a");
    let t = text(&mut arena, doc1, "t");
    append(&mut arena, a, t);
    append(&mut arena, p, a);
    assert_eq!(a.node(&arena).owner_doc(), doc2);
    assert_eq!(t.node(&arena).owner_doc(), doc2);
}

#[test]
fn append_leaves_requests_for_the_document() {
    let mut arena = NodeArena::new();
    let (doc, _d) = new_document(&mut arena);
    let p = element(&mut arena, doc, "p");
    let q = element(&mut arena, doc, "q");
    let a = element(&mut arena, doc, "a");
    append(&mut arena, q, a);
    let _ = arena.take_actions();
    append(&mut arena, p, a);
    let actions = arena.take_actions();
    assert_eq!(actions.len(), 5);
    assert!(matches!(actions[0], DocumentAction::WaitUntilSafeToModifyDom(d) if d == doc));
    assert!(matches!(actions[1], DocumentAction::UnregisterNodesWithId(n) if n.obj == a.obj));
    assert!(matches!(actions[2], DocumentAction::ContentChanged(d) if d == doc));
    assert!(matches!(actions[3], DocumentAction::RegisterNodesWithId(n) if n.obj == a.obj));
    assert!(matches!(actions[4], DocumentAction::ContentChanged(d) if d == doc));
}

#[test]
fn append_fragment_moves_its_children_in_order() {
    let mut arena = NodeArena::new();
    let (doc, _d) = new_document(&mut arena);
    let p = element(&mut arena, doc, "p");
    let z = element(&mut arena, doc, "z");
    let f = Node::as_abstract_node(&mut arena, Node::new(NodeTypeId::DocumentFragmentNodeTypeId, doc));
    let a = element(&mut arena, doc, "a");
    let b = text(&mut arena, doc, "b");
    let c = element(&mut arena, doc, "c");
    append(&mut arena, p, z);
    append(&mut arena, f, a);
    append(&mut arena, f, b);
    append(&mut arena, f, c);
    let _ = arena.take_actions();
    append(&mut arena, p, f);
    assert_eq!(child_ids(&arena, p), vec![z.obj, a.obj, b.obj, c.obj]);
    assert_eq!(child_ids(&arena, f), Vec::<usize>::new());
    assert_eq!(obj(f.first_child(&arena)), None);
    assert_eq!(obj(f.last_child(&arena)), None);
    assert!(f.is_root(&arena));
    assert_eq!(obj(a.parent_node(&arena)), Some(p.obj));
    assert_eq!(obj(b.parent_node(&arena)), Some(p.obj));
    assert_eq!(obj(c.parent_node(&arena)), Some(p.obj));
    assert_eq!(obj(z.next_sibling(&arena)), Some(a.obj));
    assert_eq!(obj(a.prev_sibling(&arena)), Some(z.obj));
    assert_eq!(obj(c.next_sibling(&arena)), None);
    assert_eq!(obj(p.last_child(&arena)), Some(c.obj));
    let actions = arena.take_actions();
    assert_eq!(actions.len(), 7);
    assert!(matches!(actions[0], DocumentAction::WaitUntilSafeToModifyDom(d) if d == doc));
    assert!(matches!(actions[1], DocumentAction::RegisterNodesWithId(n) if n.obj == a.obj));
    assert!(matches!(actions[2], DocumentAction::ContentChanged(d) if d == doc));
    assert!(matches!(actions[3], DocumentAction::RegisterNodesWithId(n) if n.obj == b.obj));
    assert!(matches!(actions[5], DocumentAction::RegisterNodesWithId(n) if n.obj == c.obj));
    assert!(matches!(actions[6], DocumentAction::ContentChanged(d) if d == doc));
}

#[test]
fn insert_fragment_before_child_splices_its_children() {
    let mut arena = NodeArena::new();
    let (doc1, _d1) = new_document(&mut arena);
    let (doc2, _d2) = new_document(&mut arena);
    let p = element(&mut arena, doc2, "p");
    let x = element(&mut arena, doc2, "x");
    let y = element(&mut arena, doc2, "y");
    let f = Node::as_abstract_node(&mut arena, Node::new(NodeTypeId::DocumentFragmentNodeTypeId, doc1));
    let a = element(&mut arena, doc1, "a");
    let b = element(&mut arena, doc1, "b");
    let t = text(&mut arena, doc1, "t");
    append(&mut arena, p, x);
    append(&mut arena, p, y);
    append(&mut arena, f, a);
    append(&mut arena, f, b);
    append(&mut arena, a, t);
    assert_eq!(Node::InsertBefore(&mut arena, p, f, Some(y)).map(|r| r.obj), Ok(f.obj));
    assert_eq!(child_ids(&arena, p), vec![x.obj, a.obj, b.obj, y.obj]);
    assert_eq!(child_ids(&arena, f), Vec::<usize>::new());
    assert_eq!(child_ids(&arena, a), vec![t.obj]);
    assert_eq!(obj(b.next_sibling(&arena)), Some(y.obj));
    assert_eq!(obj(y.prev_sibling(&arena)), Some(b.obj));
    assert_eq!(f.node(&arena).owner_doc(), doc2);
    assert_eq!(a.node(&arena).owner_doc(), doc2);
    assert_eq!(t.node(&arena).owner_doc(), doc2);
}

#[test]
fn refused_fragment_insertion_keeps_its_children() {
    let mut arena = NodeArena::new();
    let (doc, d) = new_document(&mut arena);
    let f = Node::as_abstract_node(&mut arena, Node::new(NodeTypeId::DocumentFragmentNodeTypeId, doc));
    let a = element(&mut arena, doc, "a");
    let t = text(&mut arena, doc, "t");
    let q = element(&mut arena, doc, "q");
    let x = element(&mut arena, doc, "x");
    append(&mut arena, f, a);
    append(&mut arena, f, t);
    let _ = arena.take_actions();
    assert_eq!(t.AppendChild(&mut arena, f).map(|r| r.obj), Err(Error::HierarchyRequest));
    assert_eq!(a.AppendChild(&mut arena, f).map(|r| r.obj), Err(Error::HierarchyRequest));
    assert_eq!(Node::InsertBefore(&mut arena, q, f, Some(x)).map(|r| r.obj), Err(Error::NotFound));
    assert_eq!(child_ids(&arena, f), vec![a.obj, t.obj]);
    assert_eq!(child_ids(&arena, q), Vec::<usize>::new());
    assert_eq!(obj(a.parent_node(&arena)), Some(f.obj));
    let actions = arena.take_actions();
    assert_eq!(actions.len(), 3);
    assert!(matches!(actions[2], DocumentAction::WaitUntilSafeToModifyDom(dd) if dd == doc));
    append(&mut arena, d, f);
    assert_eq!(child_ids(&arena, d), vec![a.obj, t.obj]);
}
