//! Where leaf pages are: the page table and the page cache.
use vstd::prelude::*;

use crate::circular_buffer::CircularBuffer;
use crate::circular_buffer;
use crate::model;
use crate::model::PageState;
use crate::nodes::leaf_node::LeafNode;
use crate::utils::mapping_table::MappingTable;

verus! {

/// Where a leaf page is, with what is there.
pub enum PageLocation {
    /// Nowhere, since the given version.
    Null(u64),
    /// On disk.
    Base(LeafNode),
    /// In the cache, as a whole page.
    Full(LeafNode),
    /// In the cache, as a delta over the page on disk where there is one.
    Mini(LeafNode, Option<LeafNode>),
}

impl View for PageLocation {
    type V = PageState;

    open spec fn view(&self) -> PageState {
        match *self {
            PageLocation::Null(v) => PageState::Null(v),
            PageLocation::Base(n) => PageState::Base(n@),
            PageLocation::Full(n) => PageState::Full(n@),
            PageLocation::Mini(n, None) => PageState::Mini(n@, None),
            PageLocation::Mini(n, Some(b)) => PageState::Mini(n@, Some(b@)),
        }
    }
}

impl PageLocation {
    pub fn version(&self) -> (r: u64)
        ensures
            r == self@.version(),
    {
        match self {
            PageLocation::Null(v) => *v,
            PageLocation::Base(n) => n.snapshot_version,
            PageLocation::Full(n) => n.snapshot_version,
            PageLocation::Mini(n, _) => n.snapshot_version,
        }
    }
}

pub open spec fn states(pages: Seq<PageLocation>) -> Seq<PageState> {
    pages.map_values(|l: PageLocation| l@)
}

/// The number of leaf pages that the page table can hold.
pub const PAGE_LIMIT: u64 = 0x800_0000;

/// The page table and the page cache.
pub struct LeafStorage {
    pub page_table: MappingTable<PageLocation>,
    pub circular_buffer: CircularBuffer,
}

impl LeafStorage {
    pub open spec fn wf(&self) -> bool {
        &&& self.page_table.wf()
        &&& self.page_table.capacity() == PAGE_LIMIT
        &&& self.page_table@.len() <= PAGE_LIMIT
        &&& self.circular_buffer.wf()
    }

    /// The page cache knows all cached pages.
    pub open spec fn cached_ok(&self) -> bool {
        forall|i: int|
            0 <= i < self.page_table@.len() && (#[trigger] self.page_table@[i])@.is_cached()
                ==> self.circular_buffer.has(i as u64, self.page_table@[i]@.size())
    }
}

/// Cached deltas take no more room than the page cache has given out.
pub proof fn lemma_minis_fit(pages: Seq<PageState>, b: &CircularBuffer)
    requires
        pages.len() <= PAGE_LIMIT,
        b.wf(),
        forall|i: int|
            0 <= i < pages.len() && (#[trigger] pages[i]).is_cached() ==> b.has(
                i as u64,
                pages[i].size(),
            ),
    ensures
        model::mini_total(pages) <= b.used,
{
    lemma_entries_cover(pages, b.entries@);
}

proof fn lemma_entries_cover(pages: Seq<PageState>, entries: Seq<(u64, usize)>)
    requires
        pages.len() <= PAGE_LIMIT,
        forall|i: int|
            0 <= i < pages.len() && #[trigger] pages[i] is Mini ==> exists|j: int|
                0 <= j < entries.len() && (#[trigger] entries[j]).0 == i && entries[j].1
                    == pages[i].size(),
    ensures
        model::mini_total(pages) <= circular_buffer::total(entries),
    decreases pages.len(),
{
    if pages.len() > 0 {
        let n = pages.len() - 1;
        let front = pages.drop_last();
        if pages[n] is Mini {
            let j = choose|j: int|
                0 <= j < entries.len() && (#[trigger] entries[j]).0 == n && entries[j].1
                    == pages[n].size();
            let rest = entries.remove(j);
            circular_buffer::lemma_total_remove(entries, j);
            assert forall|i: int| 0 <= i < front.len() && #[trigger] front[i] is Mini implies exists|
                x: int,
            |
                0 <= x < rest.len() && (#[trigger] rest[x]).0 == i && rest[x].1
                    == front[i].size() by {
                assert(pages[i] is Mini);
                let x = choose|x: int|
                    0 <= x < entries.len() && (#[trigger] entries[x]).0 == i && entries[x].1
                        == pages[i].size();
                if x < j {
                    assert(rest[x] == entries[x]);
                } else {
                    assert(rest[x - 1] == entries[x]);
                }
            }
            lemma_entries_cover(front, rest);
        } else {
            assert forall|i: int| 0 <= i < front.len() && #[trigger] front[i] is Mini implies exists|
                x: int,
            |
                0 <= x < entries.len() && (#[trigger] entries[x]).0 == i && entries[x].1
                    == front[i].size() by {
                assert(pages[i] is Mini);
            }
            lemma_entries_cover(front, entries);
        }
    }
}

} // verus!
