use lib::layout::{LayoutData, NodeLayoutData, assert_layout_data_is_sendable};
use lib::node::{AbstractNode, Node, node_type_debug_string};
use lib::tree::NodeArena;
use lib::types::{
    AbstractDocument, CharacterData, Comment, DocumentType, DocumentTypeId, Element,
    ElementTypeId, Error, LayoutView, NodeTypeId, ScriptView, Text, null_str_as_empty,
};

fn new_document(arena: &mut NodeArena<ScriptView>) -> (AbstractDocument, AbstractNode<ScriptView>) {
    let n = Node::new_without_doc(NodeTypeId::DocumentNodeTypeId(DocumentTypeId::HTMLDocumentTypeId));
    let h = Node::as_abstract_node(arena, n);
    let doc = AbstractDocument { node: h.obj };
    arena.set_owner_doc(h, doc);
    (doc, h)
}

fn element(arena: &mut NodeArena<ScriptView>, doc: AbstractDocument, tag: &str) -> AbstractNode<ScriptView> {
    let n = Element::new(ElementTypeId::HTMLDivElementTypeId, tag.to_string(), doc);
    Node::as_abstract_node(arena, n)
}

fn text(arena: &mut NodeArena<ScriptView>, doc: AbstractDocument, data: &str) -> AbstractNode<ScriptView> {
    Node::as_abstract_node(arena, Text::new(data.to_string(), doc))
}

fn child_ids(arena: &NodeArena<ScriptView>, p: AbstractNode<ScriptView>) -> Vec<usize> {
    p.children(arena).collect(arena).iter().map(|a| a.obj).collect()
}

fn append(arena: &mut NodeArena<ScriptView>, p: AbstractNode<ScriptView>, c: AbstractNode<ScriptView>) {
    assert_eq!(p.AppendChild(arena, c).map(|a| a.obj), Ok(c.obj));
}

#[test]
fn text_content_joins_text_in_tree_order() {
    let mut arena = NodeArena::new();
    let (doc, _d) = new_document(&mut arena);
    let p = element(&mut arena, doc, "p");
    let a = text(&mut arena, doc, "ab");
    let q = element(&mut arena, doc, "q");
    let b = text(&mut arena, doc, "cd");
    let c = Node::as_abstract_node(&mut arena, Comment::new("skip".to_string(), doc));
    let d = text(&mut arena, doc, "ef");
    append(&mut arena, p, a);
    append(&mut arena, p, q);
    append(&mut arena, q, b);
    append(&mut arena, q, c);
    append(&mut arena, p, d);
    assert_eq!(Node::GetTextContent(&arena, p), Some("abcdef".to_string()));
    assert_eq!(Node::GetTextContent(&arena, q), Some("cd".to_string()));
    assert_eq!(Node::GetTextContent(&arena, a), Some("ab".to_string()));
    assert_eq!(Node::GetTextContent(&arena, c), Some("skip".to_string()));
}

#[test]
fn text_content_of_document_and_doctype_is_absent() {
    let mut arena = NodeArena::new();
    let (doc, d) = new_document(&mut arena);
    let dt = Node::as_abstract_node(&mut arena, DocumentType::new("html".to_string(), None, None, false, doc));
    assert_eq!(Node::GetTextContent(&arena, d), None);
    assert_eq!(Node::GetTextContent(&arena, dt), None);
}

#[test]
fn set_text_content_of_element_round_trips() {
    let mut arena = NodeArena::new();
    let (doc, _d) = new_document(&mut arena);
    let p = element(&mut arena, doc, "p");
    let a = text(&mut arena, doc, "old");
    let q = element(&mut arena, doc, "q");
    append(&mut arena, p, a);
    append(&mut arena, p, q);
    let before = arena.num_nodes();
    assert_eq!(Node::SetTextContent(&mut arena, p, &Some("new".to_string())), Ok(()));
    assert_eq!(Node::GetTextContent(&arena, p), Some("new".to_string()));
    assert_eq!(child_ids(&arena, p), vec![before]);
    assert!(a.is_root(&arena));
    assert!(q.is_root(&arena));
    assert!(AbstractNode::<ScriptView>::from_raw(before).is_text(&arena));
}

#[test]
fn set_text_content_empty_or_absent_clears_children() {
    let mut arena = NodeArena::new();
    let (doc, _d) = new_document(&mut arena);
    let p = element(&mut arena, doc, "p");
    let a = text(&mut arena, doc, "old");
    append(&mut arena, p, a);
    let before = arena.num_nodes();
    assert_eq!(Node::SetTextContent(&mut arena, p, &Some(String::new())), Ok(()));
    assert_eq!(child_ids(&arena, p), Vec::<usize>::new());
    assert_eq!(Node::GetTextContent(&arena, p), Some(String::new()));
    append(&mut arena, p, a);
    assert_eq!(Node::SetTextContent(&mut arena, p, &None), Ok(()));
    assert_eq!(child_ids(&arena, p), Vec::<usize>::new());
    assert_eq!(arena.num_nodes(), before);
}

#[test]
fn set_text_content_of_text_and_comment_sets_data() {
    let mut arena = NodeArena::new();
    let (doc, d) = new_document(&mut arena);
    let t = text(&mut arena, doc, "old");
    let c = Node::as_abstract_node(&mut arena, Comment::new("x".to_string(), doc));
    assert_eq!(Node::SetTextContent(&mut arena, t, &Some("fresh".to_string())), Ok(()));
    assert_eq!(Node::SetTextContent(&mut arena, c, &None), Ok(()));
    assert_eq!(Node::GetTextContent(&arena, t), Some("fresh".to_string()));
    assert_eq!(Node::GetTextContent(&arena, c), Some(String::new()));
    assert_eq!(t.node(&arena).GetNodeValue(), Some("fresh".to_string()));
    assert_eq!(Node::SetTextContent(&mut arena, d, &Some("ignored".to_string())), Ok(()));
    assert_eq!(child_ids(&arena, d), Vec::<usize>::new());
}

#[test]
fn remove_child_detaches_and_reports_not_found() {
    let mut arena = NodeArena::new();
    let (doc, _d) = new_document(&mut arena);
    let p = element(&mut arena, doc, "p");
    let a = element(&mut arena, doc, "a");
    let b = element(&mut arena, doc, "b");
    let c = element(&mut arena, doc, "c");
    append(&mut arena, p, a);
    append(&mut arena, p, b);
    append(&mut arena, p, c);
    assert_eq!(Node::RemoveChild(&mut arena, p, b).map(|x| x.obj), Ok(b.obj));
    assert_eq!(child_ids(&arena, p), vec![a.obj, c.obj]);
    assert!(b.is_root(&arena));
    assert_eq!(a.next_sibling(&arena).map(|x| x.obj), Some(c.obj));
    assert_eq!(c.prev_sibling(&arena).map(|x| x.obj), Some(a.obj));
    assert_eq!(Node::RemoveChild(&mut arena, p, b).map(|x| x.obj), Err(Error::NotFound));
    assert_eq!(Node::RemoveChild(&mut arena, a, c).map(|x| x.obj), Err(Error::NotFound));
    assert_eq!(child_ids(&arena, p), vec![a.obj, c.obj]);
}

#[test]
fn append_then_remove_restores_the_tree() {
    let mut arena = NodeArena::new();
    let (doc, _d) = new_document(&mut arena);
    let p = element(&mut arena, doc, "p");
    let a = element(&mut arena, doc, "a");
    let n = element(&mut arena, doc, "n");
    append(&mut arena, p, a);
    append(&mut arena, p, n);
    assert_eq!(Node::RemoveChild(&mut arena, p, n).map(|x| x.obj), Ok(n.obj));
    assert_eq!(child_ids(&arena, p), vec![a.obj]);
    assert_eq!(p.last_child(&arena).map(|x| x.obj), Some(a.obj));
    assert_eq!(a.next_sibling(&arena).map(|x| x.obj), None);
    assert!(n.is_root(&arena));
}

#[test]
fn node_type_and_name() {
    let mut arena = NodeArena::new();
    let (doc, d) = new_document(&mut arena);
    let e = element(&mut arena, doc, "DIV");
    let t = text(&mut arena, doc, "t");
    let c = Node::as_abstract_node(&mut arena, Comment::new("c".to_string(), doc));
    let dt = Node::as_abstract_node(&mut arena, DocumentType::new("html".to_string(), None, None, false, doc));
    let f = Node::as_abstract_node(&mut arena, Node::new(NodeTypeId::DocumentFragmentNodeTypeId, doc));
    assert_eq!(e.node(&arena).NodeType(), 1);
    assert_eq!(t.node(&arena).NodeType(), 3);
    assert_eq!(c.node(&arena).NodeType(), 8);
    assert_eq!(d.node(&arena).NodeType(), 9);
    assert_eq!(dt.node(&arena).NodeType(), 10);
    assert_eq!(f.node(&arena).NodeType(), 11);
    assert_eq!(e.node(&arena).NodeName(), Some("DIV".to_string()));
    assert_eq!(t.node(&arena).NodeName(), Some("#text".to_string()));
    assert_eq!(c.node(&arena).NodeName(), Some("#comment".to_string()));
    assert_eq!(d.node(&arena).NodeName(), Some("#document".to_string()));
    assert_eq!(dt.node(&arena).NodeName(), Some("html".to_string()));
    assert_eq!(f.node(&arena).NodeName(), Some("#document-fragment".to_string()));
    assert_eq!(c.node(&arena).GetNodeValue(), Some("c".to_string()));
    assert_eq!(e.node(&arena).GetNodeValue(), None);
    assert_eq!(d.node(&arena).GetOwnerDocument(), None);
    assert_eq!(e.node(&arena).GetOwnerDocument(), Some(doc));
}

#[test]
fn kind_predicates() {
    let mut arena = NodeArena::new();
    let (doc, d) = new_document(&mut arena);
    let img = Node::as_abstract_node(&mut arena, Element::new(ElementTypeId::HTMLImageElementTypeId, "img".to_string(), doc));
    let ifr = Node::as_abstract_node(&mut arena, Element::new(ElementTypeId::HTMLIframeElementTypeId, "iframe".to_string(), doc));
    let sty = Node::as_abstract_node(&mut arena, Element::new(ElementTypeId::HTMLStyleElementTypeId, "style".to_string(), doc));
    let t = text(&mut arena, doc, "t");
    assert!(img.is_element(&arena) && img.is_image_element(&arena) && !img.is_iframe_element(&arena));
    assert!(ifr.is_iframe_element(&arena) && !ifr.is_style_element(&arena));
    assert!(sty.is_style_element(&arena));
    assert!(t.is_text(&arena) && t.is_characterdata(&arena) && !t.is_comment(&arena));
    assert!(d.is_document(&arena) && !d.is_doctype(&arena));
}

#[test]
fn parent_element_and_in_doc() {
    let mut arena = NodeArena::new();
    let (doc, d) = new_document(&mut arena);
    let e = element(&mut arena, doc, "e");
    let t = text(&mut arena, doc, "t");
    append(&mut arena, d, e);
    append(&mut arena, e, t);
    assert_eq!(t.node(&arena).GetParentElement(&arena).map(|x| x.obj), Some(e.obj));
    assert_eq!(e.node(&arena).GetParentElement(&arena).map(|x| x.obj), None);
    assert_eq!(e.node(&arena).GetParentNode().map(|x| x.obj), Some(d.obj));
    assert!(t.is_in_doc(&arena));
    assert!(!d.is_in_doc(&arena));
    assert_eq!(Node::RemoveChild(&mut arena, d, e).map(|x| x.obj), Ok(e.obj));
    assert!(!t.is_in_doc(&arena));
}

#[test]
fn dump_lines_are_indented_in_tree_order() {
    let mut arena = NodeArena::new();
    let (doc, d) = new_document(&mut arena);
    let e = element(&mut arena, doc, "e");
    let t = text(&mut arena, doc, "t");
    append(&mut arena, d, e);
    append(&mut arena, e, t);
    assert_eq!(
        d.dump(&arena),
        vec![
            "DocumentNodeTypeId(HTMLDocumentTypeId)".to_string(),
            "    ElementNodeTypeId(HTMLDivElementTypeId)".to_string(),
            "        TextNodeTypeId".to_string(),
        ]
    );
    assert_eq!(e.dump_indent(&arena, 1), vec!["    ElementNodeTypeId(HTMLDivElementTypeId)".to_string(), "        TextNodeTypeId".to_string()]);
    assert_eq!(t.debug_str(&arena), "TextNodeTypeId".to_string());
    assert_eq!(node_type_debug_string(NodeTypeId::DocumentFragmentNodeTypeId), "DocumentFragmentNodeTypeId".to_string());
}

#[test]
fn child_nodes_list_is_made_once() {
    let mut arena = NodeArena::new();
    let (doc, _d) = new_document(&mut arena);
    let e = element(&mut arena, doc, "e");
    assert!(e.node(&arena).child_list.is_none());
    let l1 = Node::ChildNodes(&mut arena, e);
    assert_eq!(l1.root.obj, e.obj);
    let l2 = Node::ChildNodes(&mut arena, e);
    assert_eq!(l2.root.obj, e.obj);
    assert!(e.node(&arena).child_list.is_some());
}

#[test]
fn character_data_access() {
    let mut arena = NodeArena::new();
    let (doc, _d) = new_document(&mut arena);
    let t = text(&mut arena, doc, "abc");
    let len = t.with_imm_characterdata(&arena, |cd: &CharacterData| cd.data.len());
    assert_eq!(len, 3);
    t.with_mut_characterdata(&mut arena, |cd: &mut CharacterData| cd.data.push_str("def"));
    assert_eq!(Node::GetTextContent(&arena, t), Some("abcdef".to_string()));
    t.with_mut_text(&mut arena, |x: &mut Text| x.element.data = "z".to_string());
    assert_eq!(t.with_imm_text(&arena, |x: &Text| x.element.data.clone()), "z".to_string());
    let e = element(&mut arena, doc, "p");
    e.as_mut_element(&mut arena, |x: &mut Element| x.tag_name = "P".to_string());
    assert_eq!(e.with_imm_element(&arena, |x: &Element| x.tag_name.clone()), "P".to_string());
    let img = Node::as_abstract_node(&mut arena, Element::new(ElementTypeId::HTMLImageElementTypeId, "img".to_string(), doc));
    assert!(img.is_image_element(&arena));
    img.with_mut_image_element(&mut arena, |x: &mut Element| x.tag_name = "IMG".to_string());
    assert_eq!(img.with_imm_image_element(&arena, |x: &Element| x.tag_name.clone()), "IMG".to_string());
    let ifr = Node::as_abstract_node(&mut arena, Element::new(ElementTypeId::HTMLIframeElementTypeId, "iframe".to_string(), doc));
    assert!(ifr.is_iframe_element(&arena));
    assert!(!ifr.is_image_element(&arena));
    ifr.with_mut_iframe_element(&mut arena, |x: &mut Element| x.tag_name.push('!'));
    assert_eq!(ifr.with_imm_iframe_element(&arena, |x: &Element| x.tag_name.clone()), "iframe!".to_string());
    let dt = Node::as_abstract_node(&mut arena, DocumentType::new("html".to_string(), None, None, false, doc));
    dt.with_mut_doctype(&mut arena, |x: &mut DocumentType| x.force_quirks = true);
    assert!(dt.with_imm_doctype(&arena, |x: &DocumentType| x.force_quirks));
}

#[test]
fn layout_data_access() {
    assert_layout_data_is_sendable();
    let mut arena: NodeArena<LayoutView> = NodeArena::new();
    let n: Node<LayoutView> = Node {
        type_id: NodeTypeId::DocumentFragmentNodeTypeId,
        parent_node: None,
        first_child: None,
        last_child: None,
        next_sibling: None,
        prev_sibling: None,
        owner_doc: None,
        child_list: None,
        layout_data: NodeLayoutData::new(),
        content: lib::types::NodeContent::Plain,
    };
    let h = arena.add_node(n);
    assert_eq!(h.read_layout_data(&arena, |d: &LayoutData| d.restyle_damage), None);
    h.write_layout_data(&mut arena, |d: &mut LayoutData| d.restyle_damage = Some(7));
    assert_eq!(h.read_layout_data(&arena, |d: &LayoutData| d.restyle_damage), Some(7));
}

fn layout_node() -> Node<LayoutView> {
    Node {
        type_id: NodeTypeId::DocumentFragmentNodeTypeId,
        parent_node: None,
        first_child: None,
        last_child: None,
        next_sibling: None,
        prev_sibling: None,
        owner_doc: None,
        child_list: None,
        layout_data: NodeLayoutData::new(),
        content: lib::types::NodeContent::Plain,
    }
}

#[test]
fn layout_read_sees_the_last_write_to_its_node() {
    let mut arena: NodeArena<LayoutView> = NodeArena::new();
    let h = arena.add_node(layout_node());
    let g = arena.add_node(layout_node());
    h.write_layout_data(&mut arena, |d: &mut LayoutData| d.restyle_damage = Some(3));
    g.write_layout_data(&mut arena, |d: &mut LayoutData| d.restyle_damage = Some(-5));
    assert_eq!(h.read_layout_data(&arena, |d: &LayoutData| d.restyle_damage), Some(3));
    assert_eq!(g.read_layout_data(&arena, |d: &LayoutData| d.restyle_damage), Some(-5));
    h.write_layout_data(&mut arena, |d: &mut LayoutData| {
        d.restyle_damage = Some(11);
        d.style = Some(2);
    });
    assert_eq!(h.read_layout_data(&arena, |d: &LayoutData| (d.restyle_damage, d.style)), (Some(11), Some(2)));
    assert_eq!(g.read_layout_data(&arena, |d: &LayoutData| (d.restyle_damage, d.style)), (Some(-5), None));
}

#[test]
fn null_string_reads_as_empty() {
    assert_eq!(null_str_as_empty(&None), String::new());
    assert_eq!(null_str_as_empty(&Some("x".to_string())), "x".to_string());
    assert_eq!(CharacterData { data: "q".to_string() }.Data(), Some("q".to_string()));
    let _ = Comment { element: CharacterData { data: String::new() } };
}
