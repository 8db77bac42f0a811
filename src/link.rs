use vstd::prelude::*;

verus! {

/// Value that matches any link component in a query, and the null index.
pub const ANY: usize = 0;

/// An identified directed edge: all three components index the same store.
#[derive(Debug, Clone, Copy, PartialEq, Eq, Hash, Structural)]
pub struct Link {
    pub index: usize,
    pub source: usize,
    pub target: usize,
}

impl Link {
    pub fn new(index: usize, source: usize, target: usize) -> (r: Link)
        ensures
            r.index == index,
            r.source == source,
            r.target == target,
    {
        Link { index, source, target }
    }

    /// A link whose three components are the same value.
    pub fn point(val: usize) -> (r: Link)
        ensures
            r.index == val,
            r.source == val,
            r.target == val,
    {
        Link::new(val, val, val)
    }

    /// The null link `(0, 0, 0)`.
    pub fn nothing() -> (r: Link)
        ensures
            r.index == 0,
            r.source == 0,
            r.target == 0,
    {
        Link::new(0, 0, 0)
    }

    pub fn is_null(&self) -> (r: bool)
        ensures
            r == (self.index == 0 && self.source == 0 && self.target == 0),
    {
        self.index == 0 && self.source == 0 && self.target == 0
    }

    /// True when index, source and target are all equal.
    pub fn is_full(&self) -> (r: bool)
        ensures
            r == (self.index == self.source && self.index == self.target),
    {
        self.index == self.source && self.index == self.target
    }

    /// True when the index equals the source or the target.
    pub fn is_partial(&self) -> (r: bool)
        ensures
            r == (self.index == self.source || self.index == self.target),
    {
        self.index == self.source || self.index == self.target
    }
}

/// What an enumeration handler asks for after seeing a link.
#[derive(Debug, Clone, Copy, PartialEq, Eq, Structural)]
pub enum Flow {
    Continue,
    Break,
}

impl Flow {
    /// `true` continues, `false` breaks.
    pub fn from_bool(value: bool) -> (r: Flow)
        ensures
            r == (if value { Flow::Continue } else { Flow::Break }),
    {
        if value {
            Flow::Continue
        } else {
            Flow::Break
        }
    }
}

/// The store's reserved values: the wildcard and the internal index range.
#[derive(Debug, Clone, Copy, PartialEq, Eq, Structural)]
pub struct Constants {
    pub any: usize,
    pub internal_start: usize,
    pub internal_end: usize,
}

impl Constants {
    pub fn new(capacity: usize) -> (r: Constants)
        ensures
            r.any == 0,
            r.internal_start == 1,
            r.internal_end == capacity,
    {
        Constants { any: ANY, internal_start: 1, internal_end: capacity }
    }

    pub fn is_any(&self, value: usize) -> (r: bool)
        ensures
            r == (value == self.any),
    {
        value == self.any
    }

    /// True when `value` lies in `[internal_start, internal_end)`.
    pub fn is_internal(&self, value: usize) -> (r: bool)
        ensures
            r == (self.internal_start <= value && value < self.internal_end),
    {
        value >= self.internal_start && value < self.internal_end
    }

    /// True when `value` is neither the wildcard nor internal.
    pub fn is_external(&self, value: usize) -> (r: bool)
        ensures
            r == (value != self.any && !(self.internal_start <= value && value
                < self.internal_end)),
    {
        !self.is_any(value) && !self.is_internal(value)
    }
}

/// Fanout class of an adaptive-radix node, kept in a node's metadata word.
#[derive(Debug, Clone, Copy, PartialEq, Eq, Structural)]
pub enum NodeType {
    Empty,
    Node4,
    Node16,
    Node48,
    Node256,
}

impl NodeType {
    /// The class whose fanout range holds `size`; none above 256.
    pub fn from_size(size: usize) -> (r: Option<NodeType>)
        ensures
            r == (if size == 0 {
                Some(NodeType::Empty)
            } else if size <= 4 {
                Some(NodeType::Node4)
            } else if size <= 16 {
                Some(NodeType::Node16)
            } else if size <= 48 {
                Some(NodeType::Node48)
            } else if size <= 256 {
                Some(NodeType::Node256)
            } else {
                None
            }),
    {
        if size == 0 {
            Some(NodeType::Empty)
        } else if size <= 4 {
            Some(NodeType::Node4)
        } else if size <= 16 {
            Some(NodeType::Node16)
        } else if size <= 48 {
            Some(NodeType::Node48)
        } else if size <= 256 {
            Some(NodeType::Node256)
        } else {
            None
        }
    }

    /// The largest fanout of the class.
    pub fn to_size(self) -> (r: usize)
        ensures
            r == match self {
                NodeType::Empty => 0usize,
                NodeType::Node4 => 4usize,
                NodeType::Node16 => 16usize,
                NodeType::Node48 => 48usize,
                NodeType::Node256 => 256usize,
            },
    {
        match self {
            NodeType::Empty => 0,
            NodeType::Node4 => 4,
            NodeType::Node16 => 16,
            NodeType::Node48 => 48,
            NodeType::Node256 => 256,
        }
    }
}

} // verus!
