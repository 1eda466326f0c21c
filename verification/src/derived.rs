//! Access to what a node carries by its kind: the character data of text and comment
//! nodes, the name of a document type, the tag name of an element. A node of another
//! kind is refused by the `requires` of each function.
use vstd::prelude::*;
use crate::layout::LayoutData;
use crate::node::{AbstractNode, Node};
use crate::tree::NodeArena;
use crate::types::{
    CharacterData, Comment, DocumentType, Element, ElementTypeId, LayoutView, NodeContent, NodeTypeId, Text,
    is_characterdata_type,
    is_doctype_type, is_element_type, is_text_type,
};

verus! {

/// The character data of a text or comment node's content.
pub open spec fn characterdata_of(c: NodeContent) -> CharacterData {
    if c is Text {
        c->Text_0.element
    } else {
        c->Comment_0.element
    }
}

/// The content `c` of a text or comment node, with `cd` for its character data.
pub open spec fn with_characterdata(c: NodeContent, cd: CharacterData) -> NodeContent {
    match c {
        NodeContent::Text(_) => NodeContent::Text(Text { element: cd }),
        NodeContent::Comment(_) => NodeContent::Comment(Comment { element: cd }),
        _ => c,
    }
}

impl<View> AbstractNode<View> {
    /// Hands the character data of this text or comment node to `f`.
    pub fn with_imm_characterdata<R, F: Fn(&CharacterData) -> R>(self, arena: &NodeArena<View>, f: F) -> (r: R)
        requires
            arena.wf(),
            arena.valid(self.obj as int),
            is_characterdata_type(arena.node_at(self.obj as int).type_id),
            call_requires(f, (&characterdata_of(arena.node_at(self.obj as int).content),)),
        ensures
            call_ensures(f, (&characterdata_of(arena.node_at(self.obj as int).content),), r),
    {
        proof {
            assert(arena.node_wf(self.obj as int));
        }
        match &self.node(arena).content {
            NodeContent::Text(t) => f(&t.element),
            NodeContent::Comment(c) => f(&c.element),
            _ => {
                assert(false);
                f(&CharacterData { data: String::new() })
            },
        }
    }

    /// Lets `f` change the character data of this text or comment node.
    pub fn with_mut_characterdata<R, F: FnOnce(&mut CharacterData) -> R>(self, arena: &mut NodeArena<View>, f: F) -> (r: R)
        requires
            old(arena).wf(),
            old(arena).valid(self.obj as int),
            is_characterdata_type(old(arena).node_at(self.obj as int).type_id),
            forall|x: &mut CharacterData| *x == characterdata_of(old(arena).node_at(self.obj as int).content)
                ==> call_requires(f, (x,)),
        ensures
            final(arena).wf(),
            final(arena).pending() == old(arena).pending(),
            exists|x: &mut CharacterData| {
                &&& *x == characterdata_of(old(arena).node_at(self.obj as int).content)
                &&& call_ensures(f, (x,), r)
                &&& final(arena).data_updated(
                    old(arena),
                    self.obj as int,
                    Node {
                        content: with_characterdata(old(arena).node_at(self.obj as int).content, *final(x)),
                        ..old(arena).node_at(self.obj as int)
                    },
                )
            },
    {
        proof {
            assert(old(arena).node_wf(self.obj as int));
        }
        let is_text = self.is_text(arena);
        let mut cd = match &self.node(arena).content {
            NodeContent::Text(t) => t.element.clone(),
            NodeContent::Comment(c) => c.element.clone(),
            _ => {
                assert(false);
                CharacterData { data: String::new() }
            },
        };
        let r = f(&mut cd);
        if is_text {
            arena.set_content(self, NodeContent::Text(Text { element: cd }));
        } else {
            arena.set_content(self, NodeContent::Comment(Comment { element: cd }));
        }
        r
    }

    /// Hands the data of this text node to `f`.
    pub fn with_imm_text<R, F: Fn(&Text) -> R>(self, arena: &NodeArena<View>, f: F) -> (r: R)
        requires
            arena.wf(),
            arena.valid(self.obj as int),
            is_text_type(arena.node_at(self.obj as int).type_id),
            call_requires(f, (&arena.node_at(self.obj as int).content->Text_0,)),
        ensures
            call_ensures(f, (&arena.node_at(self.obj as int).content->Text_0,), r),
    {
        proof {
            assert(arena.node_wf(self.obj as int));
        }
        match &self.node(arena).content {
            NodeContent::Text(d) => f(d),
            _ => {
                assert(false);
                f(&Text { element: CharacterData { data: String::new() } })
            },
        }
    }

    /// Lets `f` change the data of this text node.
    pub fn with_mut_text<R, F: FnOnce(&mut Text) -> R>(self, arena: &mut NodeArena<View>, f: F) -> (r: R)
        requires
            old(arena).wf(),
            old(arena).valid(self.obj as int),
            is_text_type(old(arena).node_at(self.obj as int).type_id),
            forall|x: &mut Text| *x == old(arena).node_at(self.obj as int).content->Text_0 ==> call_requires(f, (x,)),
        ensures
            final(arena).wf(),
            final(arena).pending() == old(arena).pending(),
            exists|x: &mut Text| {
                &&& *x == old(arena).node_at(self.obj as int).content->Text_0
                &&& call_ensures(f, (x,), r)
                &&& final(arena).data_updated(
                    old(arena),
                    self.obj as int,
                    Node { content: NodeContent::Text(*final(x)), ..old(arena).node_at(self.obj as int) },
                )
            },
    {
        proof {
            assert(old(arena).node_wf(self.obj as int));
        }
        let mut d = match &self.node(arena).content {
            NodeContent::Text(d) => d.clone(),
            _ => {
                assert(false);
                Text { element: CharacterData { data: String::new() } }
            },
        };
        let r = f(&mut d);
        arena.set_content(self, NodeContent::Text(d));
        r
    }

    /// Hands the data of this document type node to `f`.
    pub fn with_imm_doctype<R, F: Fn(&DocumentType) -> R>(self, arena: &NodeArena<View>, f: F) -> (r: R)
        requires
            arena.wf(),
            arena.valid(self.obj as int),
            is_doctype_type(arena.node_at(self.obj as int).type_id),
            call_requires(f, (&arena.node_at(self.obj as int).content->Doctype_0,)),
        ensures
            call_ensures(f, (&arena.node_at(self.obj as int).content->Doctype_0,), r),
    {
        proof {
            assert(arena.node_wf(self.obj as int));
        }
        match &self.node(arena).content {
            NodeContent::Doctype(d) => f(d),
            _ => {
                assert(false);
                f(&DocumentType { name: String::new(), public_id: None, system_id: None, force_quirks: false })
            },
        }
    }

    /// Lets `f` change the data of this document type node.
    pub fn with_mut_doctype<R, F: FnOnce(&mut DocumentType) -> R>(self, arena: &mut NodeArena<View>, f: F) -> (r: R)
        requires
            old(arena).wf(),
            old(arena).valid(self.obj as int),
            is_doctype_type(old(arena).node_at(self.obj as int).type_id),
            forall|x: &mut DocumentType| *x == old(arena).node_at(self.obj as int).content->Doctype_0 ==> call_requires(f, (x,)),
        ensures
            final(arena).wf(),
            final(arena).pending() == old(arena).pending(),
            exists|x: &mut DocumentType| {
                &&& *x == old(arena).node_at(self.obj as int).content->Doctype_0
                &&& call_ensures(f, (x,), r)
                &&& final(arena).data_updated(
                    old(arena),
                    self.obj as int,
                    Node { content: NodeContent::Doctype(*final(x)), ..old(arena).node_at(self.obj as int) },
                )
            },
    {
        proof {
            assert(old(arena).node_wf(self.obj as int));
        }
        let mut d = match &self.node(arena).content {
            NodeContent::Doctype(d) => d.clone(),
            _ => {
                assert(false);
                DocumentType { name: String::new(), public_id: None, system_id: None, force_quirks: false }
            },
        };
        let r = f(&mut d);
        arena.set_content(self, NodeContent::Doctype(d));
        r
    }

    /// Hands the data of this element node to `f`.
    pub fn with_imm_element<R, F: Fn(&Element) -> R>(self, arena: &NodeArena<View>, f: F) -> (r: R)
        requires
            arena.wf(),
            arena.valid(self.obj as int),
            is_element_type(arena.node_at(self.obj as int).type_id),
            call_requires(f, (&arena.node_at(self.obj as int).content->Element_0,)),
        ensures
            call_ensures(f, (&arena.node_at(self.obj as int).content->Element_0,), r),
    {
        proof {
            assert(arena.node_wf(self.obj as int));
        }
        match &self.node(arena).content {
            NodeContent::Element(d) => f(d),
            _ => {
                assert(false);
                f(&Element { tag_name: String::new() })
            },
        }
    }

    /// Lets `f` change the data of this element node.
    pub fn as_mut_element<R, F: FnOnce(&mut Element) -> R>(self, arena: &mut NodeArena<View>, f: F) -> (r: R)
        requires
            old(arena).wf(),
            old(arena).valid(self.obj as int),
            is_element_type(old(arena).node_at(self.obj as int).type_id),
            forall|x: &mut Element| *x == old(arena).node_at(self.obj as int).content->Element_0 ==> call_requires(f, (x,)),
        ensures
            final(arena).wf(),
            final(arena).pending() == old(arena).pending(),
            exists|x: &mut Element| {
                &&& *x == old(arena).node_at(self.obj as int).content->Element_0
                &&& call_ensures(f, (x,), r)
                &&& final(arena).data_updated(
                    old(arena),
                    self.obj as int,
                    Node { content: NodeContent::Element(*final(x)), ..old(arena).node_at(self.obj as int) },
                )
            },
    {
        proof {
            assert(old(arena).node_wf(self.obj as int));
        }
        let mut d = match &self.node(arena).content {
            NodeContent::Element(d) => d.clone(),
            _ => {
                assert(false);
                Element { tag_name: String::new() }
            },
        };
        let r = f(&mut d);
        arena.set_content(self, NodeContent::Element(d));
        r
    }

    /// Hands the data of this image element node to `f`.
    pub fn with_imm_image_element<R, F: Fn(&Element) -> R>(self, arena: &NodeArena<View>, f: F) -> (r: R)
        requires
            arena.wf(),
            arena.valid(self.obj as int),
            arena.node_at(self.obj as int).type_id == NodeTypeId::ElementNodeTypeId(ElementTypeId::HTMLImageElementTypeId),
            call_requires(f, (&arena.node_at(self.obj as int).content->Element_0,)),
        ensures
            call_ensures(f, (&arena.node_at(self.obj as int).content->Element_0,), r),
    {
        self.with_imm_element(arena, f)
    }

    /// Lets `f` change the data of this image element node.
    pub fn with_mut_image_element<R, F: FnOnce(&mut Element) -> R>(self, arena: &mut NodeArena<View>, f: F) -> (r: R)
        requires
            old(arena).wf(),
            old(arena).valid(self.obj as int),
            old(arena).node_at(self.obj as int).type_id == NodeTypeId::ElementNodeTypeId(ElementTypeId::HTMLImageElementTypeId),
            forall|x: &mut Element| *x == old(arena).node_at(self.obj as int).content->Element_0 ==> call_requires(f, (x,)),
        ensures
            final(arena).wf(),
            final(arena).pending() == old(arena).pending(),
            exists|x: &mut Element| {
                &&& *x == old(arena).node_at(self.obj as int).content->Element_0
                &&& call_ensures(f, (x,), r)
                &&& final(arena).data_updated(
                    old(arena),
                    self.obj as int,
                    Node { content: NodeContent::Element(*final(x)), ..old(arena).node_at(self.obj as int) },
                )
            },
    {
        self.as_mut_element(arena, f)
    }

    /// Hands the data of this iframe element node to `f`.
    pub fn with_imm_iframe_element<R, F: Fn(&Element) -> R>(self, arena: &NodeArena<View>, f: F) -> (r: R)
        requires
            arena.wf(),
            arena.valid(self.obj as int),
            arena.node_at(self.obj as int).type_id == NodeTypeId::ElementNodeTypeId(ElementTypeId::HTMLIframeElementTypeId),
            call_requires(f, (&arena.node_at(self.obj as int).content->Element_0,)),
        ensures
            call_ensures(f, (&arena.node_at(self.obj as int).content->Element_0,), r),
    {
        self.with_imm_element(arena, f)
    }

    /// Lets `f` change the data of this iframe element node.
    pub fn with_mut_iframe_element<R, F: FnOnce(&mut Element) -> R>(self, arena: &mut NodeArena<View>, f: F) -> (r: R)
        requires
            old(arena).wf(),
            old(arena).valid(self.obj as int),
            old(arena).node_at(self.obj as int).type_id == NodeTypeId::ElementNodeTypeId(ElementTypeId::HTMLIframeElementTypeId),
            forall|x: &mut Element| *x == old(arena).node_at(self.obj as int).content->Element_0 ==> call_requires(f, (x,)),
        ensures
            final(arena).wf(),
            final(arena).pending() == old(arena).pending(),
            exists|x: &mut Element| {
                &&& *x == old(arena).node_at(self.obj as int).content->Element_0
                &&& call_ensures(f, (x,), r)
                &&& final(arena).data_updated(
                    old(arena),
                    self.obj as int,
                    Node { content: NodeContent::Element(*final(x)), ..old(arena).node_at(self.obj as int) },
                )
            },
    {
        self.as_mut_element(arena, f)
    }
}

} // verus!

verus! {

impl AbstractNode<LayoutView> {
    // These accessors take a continuation rather than returning a reference, because
    // an AbstractNode doesn't have a lifetime parameter relating to the underlying
    // Node.
    /// Hands the layout data of this node to `blk`.
    pub fn read_layout_data<R, F: Fn(&LayoutData) -> R>(self, arena: &NodeArena<LayoutView>, blk: F) -> (r: R)
        requires
            arena.valid(self.obj as int),
            call_requires(blk, (&arena.node_at(self.obj as int).layout_data@,)),
        ensures
            call_ensures(blk, (&arena.node_at(self.obj as int).layout_data@,), r),
    {
        blk(self.node(arena).layout_data.get())
    }

    /// Lets `blk` change the layout data of this node.
    pub fn write_layout_data<R, F: FnOnce(&mut LayoutData) -> R>(self, arena: &mut NodeArena<LayoutView>, blk: F) -> (r: R)
        requires
            old(arena).wf(),
            old(arena).valid(self.obj as int),
            forall|x: &mut LayoutData| *x == old(arena).node_at(self.obj as int).layout_data@ ==> call_requires(blk, (x,)),
        ensures
            final(arena).wf(),
            final(arena).pending() == old(arena).pending(),
            exists|x: &mut LayoutData| {
                &&& *x == old(arena).node_at(self.obj as int).layout_data@
                &&& call_ensures(blk, (x,), r)
                &&& final(arena).data_updated(
                    old(arena),
                    self.obj as int,
                    Node { layout_data: final(arena).node_at(self.obj as int).layout_data, ..old(arena).node_at(self.obj as int) },
                )
                &&& final(arena).node_at(self.obj as int).layout_data@ == *final(x)
            },
    {
        let ghost o = *old(arena);
        let mut data = arena.replace_layout_data(self, LayoutData::new());
        let r = blk(&mut data);
        arena.set_layout_data(self, data);
        assert(arena.nodes() =~= o.nodes().update(
            self.obj as int,
            Node { layout_data: arena.node_at(self.obj as int).layout_data, ..o.node_at(self.obj as int) },
        ));
        r
    }
}

} // verus!
