use vstd::prelude::*;

verus! {

/// A range of positions, as layout keeps it for the boxes of a node: `len` positions
/// starting at `off`.
#[derive(Clone, Copy, Debug, PartialEq, Eq, Structural)]
pub struct Range {
    pub off: usize,
    pub len: usize,
}

/// The boxes that layout associates with a node, used for `getBoundingClientRect` and
/// friends. The display list is held by the number under which layout keeps it.
pub struct DisplayBoxes {
    pub display_list: Option<u64>,
    pub range: Option<Range>,
}

/// Data that layout associates with a node. Declaration blocks and computed styles are
/// held by the numbers under which the style system keeps them.
pub struct LayoutData {
    /// The results of CSS matching for this node.
    pub applicable_declarations: Vec<u64>,
    /// The results of CSS styling for this node.
    pub style: Option<u64>,
    /// Description of how to account for recent style changes.
    pub restyle_damage: Option<i64>,
    /// The boxes associated with this node.
    pub boxes: DisplayBoxes,
}

impl LayoutData {
    /// Whether this is the data of a node that layout has not touched yet.
    pub open spec fn is_fresh(&self) -> bool {
        &&& self.applicable_declarations@.len() == 0
        &&& self.style is None
        &&& self.restyle_damage is None
        &&& self.boxes.display_list is None
        &&& self.boxes.range is None
    }

    /// Creates new layout data.
    pub fn new() -> (r: LayoutData)
        ensures
            r.is_fresh(),
    {
        LayoutData {
            applicable_declarations: Vec::new(),
            style: None,
            restyle_damage: None,
            boxes: DisplayBoxes { display_list: None, range: None },
        }
    }
}

/// The layout data that a node holds. Only the layout task may read or change it: outside
/// this library that is done through `AbstractNode::<LayoutView>::read_layout_data` and
/// `write_layout_data`.
pub struct NodeLayoutData {
    data: LayoutData,
}

impl NodeLayoutData {
    /// The layout data held.
    pub closed spec fn view(&self) -> LayoutData {
        self.data
    }

    /// Holds new layout data.
    pub fn new() -> (r: NodeLayoutData)
        ensures
            r@.is_fresh(),
    {
        NodeLayoutData { data: LayoutData::new() }
    }

    pub(crate) fn get(&self) -> (r: &LayoutData)
        ensures
            *r == self@,
    {
        &self.data
    }

    pub(crate) fn replace(&mut self, data: LayoutData) -> (r: LayoutData)
        ensures
            r == old(self)@,
            final(self)@ == data,
    {
        let mut d = data;
        std::mem::swap(&mut self.data, &mut d);
        d
    }
}

/// Takes any value that may be sent to another task; this serves as a static assertion
/// that such a value's type is sendable.
pub fn assert_is_sendable<T: Send>(_x: T) {
}

/// Layout data must remain sendable: it moves between the script and the layout task.
pub fn assert_layout_data_is_sendable() {
    assert_is_sendable(LayoutData::new())
}

} // verus!
