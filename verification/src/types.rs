use vstd::prelude::*;

verus! {

/// The kinds of document.
#[derive(Clone, Copy, Debug, PartialEq, Eq, Structural)]
pub enum DocumentTypeId {
    PlainDocumentTypeId,
    HTMLDocumentTypeId,
}

/// The kinds of element.
#[derive(Clone, Copy, Debug, PartialEq, Eq, Structural)]
pub enum ElementTypeId {
    HTMLElementTypeId,
    HTMLAnchorElementTypeId,
    HTMLBodyElementTypeId,
    HTMLDivElementTypeId,
    HTMLHeadElementTypeId,
    HTMLHtmlElementTypeId,
    HTMLIframeElementTypeId,
    HTMLImageElementTypeId,
    HTMLParagraphElementTypeId,
    HTMLScriptElementTypeId,
    HTMLSpanElementTypeId,
    HTMLStyleElementTypeId,
    HTMLTitleElementTypeId,
    HTMLUnknownElementTypeId,
}

/// The different types of nodes.
#[derive(Clone, Copy, Debug, PartialEq, Eq, Structural)]
pub enum NodeTypeId {
    DoctypeNodeTypeId,
    DocumentFragmentNodeTypeId,
    CommentNodeTypeId,
    DocumentNodeTypeId(DocumentTypeId),
    ElementNodeTypeId(ElementTypeId),
    TextNodeTypeId,
}

/// The numeric `nodeType` of a node of the given kind, as the DOM defines it.
pub open spec fn node_type_code(t: NodeTypeId) -> u16 {
    match t {
        NodeTypeId::ElementNodeTypeId(_) => 1,
        NodeTypeId::TextNodeTypeId => 3,
        NodeTypeId::CommentNodeTypeId => 8,
        NodeTypeId::DocumentNodeTypeId(_) => 9,
        NodeTypeId::DoctypeNodeTypeId => 10,
        NodeTypeId::DocumentFragmentNodeTypeId => 11,
    }
}

} // verus!

verus! {

/// A phantom type representing the script task's view of a node. Script is able to mutate
/// nodes but may not access layout data.
#[derive(Clone, Copy, Debug, PartialEq, Eq, Structural)]
pub struct ScriptView;

/// A phantom type representing the layout task's view of a node. Layout is not allowed to
/// mutate nodes but may access layout data.
#[derive(Clone, Copy, Debug, PartialEq, Eq, Structural)]
pub struct LayoutView;

/// The errors that a DOM operation reports to its caller.
#[derive(Clone, Copy, Debug, PartialEq, Eq, Structural)]
pub enum Error {
    NotFound,
    HierarchyRequest,
}

/// The result of a DOM operation that gives back a value.
pub type Fallible<T> = Result<T, Error>;

/// The result of a DOM operation that gives back nothing.
pub type ErrorResult = Result<(), Error>;

/// A DOM string: absent (`None`) or a string.
pub type DOMString = Option<String>;

/// The characters of a DOM string, an absent string read as the empty one.
pub open spec fn dom_str_chars(s: DOMString) -> Seq<char> {
    match s {
        Some(t) => t@,
        None => Seq::<char>::empty(),
    }
}

/// The contents of `s`, or the empty string when `s` is absent.
pub fn null_str_as_empty(s: &DOMString) -> (r: String)
    ensures
        r@ == dom_str_chars(*s),
{
    match s {
        Some(t) => t.clone(),
        None => String::new(),
    }
}

/// A handle on a document. A document is itself a node: `node` is its place in the
/// node arena.
#[derive(Clone, Copy, Debug, PartialEq, Eq, Structural)]
pub struct AbstractDocument {
    pub node: usize,
}

/// The data that text and comment nodes carry.
pub struct CharacterData {
    pub data: String,
}

impl CharacterData {
    /// The `data` attribute.
    pub fn Data(&self) -> (r: DOMString)
        ensures
            r is Some,
            r->0@ == self.data@,
    {
        Some(self.data.clone())
    }
}

impl Clone for CharacterData {
    fn clone(&self) -> (r: Self)
        ensures
            r == *self,
    {
        CharacterData { data: self.data.clone() }
    }
}

/// A text node's own data.
pub struct Text {
    pub element: CharacterData,
}

/// A comment node's own data.
pub struct Comment {
    pub element: CharacterData,
}

/// A document type node's own data.
pub struct DocumentType {
    pub name: String,
    pub public_id: Option<String>,
    pub system_id: Option<String>,
    pub force_quirks: bool,
}

/// A copy of an optional string.
fn clone_opt_string(s: &Option<String>) -> (r: Option<String>)
    ensures
        r == *s,
{
    match s {
        Some(t) => Some(t.clone()),
        None => None,
    }
}

impl Clone for Text {
    fn clone(&self) -> (r: Self)
        ensures
            r == *self,
    {
        Text { element: self.element.clone() }
    }
}

impl Clone for DocumentType {
    fn clone(&self) -> (r: Self)
        ensures
            r == *self,
    {
        DocumentType {
            name: self.name.clone(),
            public_id: clone_opt_string(&self.public_id),
            system_id: clone_opt_string(&self.system_id),
            force_quirks: self.force_quirks,
        }
    }
}

/// An element node's own data.
pub struct Element {
    pub tag_name: String,
}

impl Element {
    /// The `tagName` attribute.
    pub fn TagName(&self) -> (r: DOMString)
        ensures
            r is Some,
            r->0@ == self.tag_name@,
    {
        Some(self.tag_name.clone())
    }
}

impl Clone for Element {
    fn clone(&self) -> (r: Self)
        ensures
            r == *self,
    {
        Element { tag_name: self.tag_name.clone() }
    }
}

/// What a node carries besides the links of the tree, by the kind of node.
pub enum NodeContent {
    Plain,
    Text(Text),
    Comment(Comment),
    Doctype(DocumentType),
    Element(Element),
}

/// Whether `content` is what a node of type `t` carries.
pub open spec fn content_fits(t: NodeTypeId, content: NodeContent) -> bool {
    match t {
        NodeTypeId::TextNodeTypeId => content is Text,
        NodeTypeId::CommentNodeTypeId => content is Comment,
        NodeTypeId::DoctypeNodeTypeId => content is Doctype,
        NodeTypeId::ElementNodeTypeId(_) => content is Element,
        NodeTypeId::DocumentNodeTypeId(_) => content is Plain,
        NodeTypeId::DocumentFragmentNodeTypeId => content is Plain,
    }
}

/// The character data of a text or comment node's content.
pub open spec fn content_chars(content: NodeContent) -> Seq<char> {
    match content {
        NodeContent::Text(t) => t.element.data@,
        NodeContent::Comment(c) => c.element.data@,
        _ => Seq::<char>::empty(),
    }
}

} // verus!

verus! {

pub open spec fn is_element_type(t: NodeTypeId) -> bool {
    t is ElementNodeTypeId
}

pub open spec fn is_document_type(t: NodeTypeId) -> bool {
    t is DocumentNodeTypeId
}

pub open spec fn is_text_type(t: NodeTypeId) -> bool {
    t is TextNodeTypeId
}

pub open spec fn is_comment_type(t: NodeTypeId) -> bool {
    t is CommentNodeTypeId
}

pub open spec fn is_doctype_type(t: NodeTypeId) -> bool {
    t is DoctypeNodeTypeId
}

pub open spec fn is_fragment_type(t: NodeTypeId) -> bool {
    t is DocumentFragmentNodeTypeId
}

/// Text and comment nodes carry character data.
pub open spec fn is_characterdata_type(t: NodeTypeId) -> bool {
    is_text_type(t) || is_comment_type(t)
}

} // verus!
