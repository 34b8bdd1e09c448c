//! Pages of the tree: leaf pages, inner nodes and the ids that link them.
use vstd::prelude::*;

pub mod image;
pub mod inner_node;
pub mod leaf_node;
pub mod leaf_page;

verus! {

/// What a record in a leaf page stands for.
#[derive(Debug, Clone, Copy, PartialEq, Eq, Structural)]
pub enum OpType {
    /// The key is present with the record's value.
    Insert,
    /// The key is absent; the record hides an older value below it.
    Delete,
    /// A copy of a value that is present on the page below.
    Cache,
    /// The key is known to be absent on the page below.
    Phantom,
}

impl OpType {
    pub open spec fn code(self) -> u8 {
        match self {
            OpType::Insert => 0u8,
            OpType::Delete => 1u8,
            OpType::Cache => 2u8,
            OpType::Phantom => 3u8,
        }
    }

    pub open spec fn of_code(c: u8) -> Option<OpType> {
        if c == 0 {
            Some(OpType::Insert)
        } else if c == 1 {
            Some(OpType::Delete)
        } else if c == 2 {
            Some(OpType::Cache)
        } else if c == 3 {
            Some(OpType::Phantom)
        } else {
            None
        }
    }

    /// Whether a record of this kind carries a value that readers see.
    pub open spec fn is_live(self) -> bool {
        self == OpType::Insert || self == OpType::Cache
    }

    /// The byte that stands for the operation in stored records.
    pub fn as_u8(self) -> (r: u8)
        ensures
            r == self.code(),
            OpType::of_code(r) == Some(self),
            self == OpType::Insert ==> r == 0,
            self == OpType::Delete ==> r == 1,
    {
        match self {
            OpType::Insert => 0u8,
            OpType::Delete => 1u8,
            OpType::Cache => 2u8,
            OpType::Phantom => 3u8,
        }
    }

    pub fn from_u8(c: u8) -> (r: Option<OpType>)
        ensures
            r == OpType::of_code(c),
    {
        match c {
            0 => Some(OpType::Insert),
            1 => Some(OpType::Delete),
            2 => Some(OpType::Cache),
            3 => Some(OpType::Phantom),
            _ => None,
        }
    }

    pub fn live(self) -> (r: bool)
        ensures
            r == self.is_live(),
            r <==> self == OpType::Insert || self == OpType::Cache,
    {
        match self {
            OpType::Insert | OpType::Cache => true,
            OpType::Delete | OpType::Phantom => false,
        }
    }
}

/// Raw ids below this bound are leaf pages; the others are inner nodes.
pub const INNER_ID_BASE: u64 = 0x8000_0000_0000_0000;

/// The size of the unit in which a file is laid out.
pub const DISK_PAGE_SIZE: usize = 4096;

/// Stands for an inner node that has no place on disk.
pub const INVALID_DISK_OFFSET: u64 = 0xffff_ffff_ffff_ffff;

/// A link to a leaf page (its number in the page table) or to an inner node.
#[derive(Debug, Clone, Copy, PartialEq, Eq, Structural)]
pub struct PageID {
    pub raw: u64,
}

impl PageID {
    pub open spec fn spec_is_id(self) -> bool {
        self.raw < INNER_ID_BASE
    }

    /// The number of the inner node that a link leads to.
    pub open spec fn inner_no(self) -> int {
        self.raw - INNER_ID_BASE
    }

    pub open spec fn leaf(id: int) -> PageID {
        PageID { raw: id as u64 }
    }

    pub open spec fn inner(no: int) -> PageID {
        PageID { raw: (INNER_ID_BASE + no) as u64 }
    }

    /// The link to leaf page `id`.
    pub fn from_id(id: u64) -> (r: PageID)
        requires
            id < INNER_ID_BASE,
        ensures
            r == PageID::leaf(id as int),
            r.spec_is_id(),
    {
        PageID { raw: id }
    }

    /// The link to inner node number `no`.
    pub fn from_pointer(no: usize) -> (r: PageID)
        requires
            no < INNER_ID_BASE,
        ensures
            r == PageID::inner(no as int),
            !r.spec_is_id(),
            r.inner_no() == no,
    {
        PageID { raw: INNER_ID_BASE + no as u64 }
    }

    pub fn is_id(self) -> (r: bool)
        ensures
            r == self.spec_is_id(),
    {
        self.raw < INNER_ID_BASE
    }

    pub fn is_inner_node_pointer(self) -> (r: bool)
        ensures
            r == !self.spec_is_id(),
    {
        self.raw >= INNER_ID_BASE
    }

    /// The number of the leaf page.
    pub fn as_id(self) -> (r: u64)
        requires
            self.spec_is_id(),
        ensures
            r == self.raw,
    {
        self.raw
    }

    /// The number of the inner node.
    pub fn as_inner_node(self) -> (r: u64)
        requires
            !self.spec_is_id(),
        ensures
            r == self.inner_no(),
    {
        self.raw - INNER_ID_BASE
    }
}

} // verus!
