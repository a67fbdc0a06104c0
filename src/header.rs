//! Typed view of page 0: the page-id water mark and the free list.
use vstd::prelude::*;
use crate::bytes::{be_u32, read_u32, write_u32, same_outside};
use crate::page::RawPage;

verus! {

/// Capacity of the free list kept inside the header page.
pub const HEADER_FREE_LIST_MAX_SIZE: usize = 256;

pub const NULL_PAGE_BAR_OFFSET: usize = 0;

pub const FREE_LIST_SIZE_OFFSET: usize = 4;

pub const FREE_LIST_PAGE_ID_OFFSET: usize = 8;

pub const FREE_LIST_CONTENT_OFFSET: usize = 12;

/// Smallest page that holds the header with a full free list.
pub const MIN_PAGE_SIZE: u32 = 2048;

/// Largest page whose offsets fit the 16-bit fields of a data page.
pub const MAX_PAGE_SIZE: u32 = 32768;

pub open spec fn valid_page_size(page_size: u32) -> bool {
    MIN_PAGE_SIZE <= page_size <= MAX_PAGE_SIZE
}

pub open spec fn null_page_bar_of(s: Seq<u8>) -> int {
    be_u32(s, NULL_PAGE_BAR_OFFSET as int)
}

pub open spec fn free_list_size_of(s: Seq<u8>) -> int {
    be_u32(s, FREE_LIST_SIZE_OFFSET as int)
}

pub open spec fn free_list_page_id_of(s: Seq<u8>) -> int {
    be_u32(s, FREE_LIST_PAGE_ID_OFFSET as int)
}

pub open spec fn free_list_entry_of(s: Seq<u8>, i: int) -> int {
    be_u32(s, FREE_LIST_CONTENT_OFFSET + 4 * i)
}

/// The free list of a header page, oldest entry first.
pub open spec fn free_list_of(s: Seq<u8>) -> Seq<int> {
    Seq::new(free_list_size_of(s) as nat, |i: int| free_list_entry_of(s, i))
}

/// A header page whose buffer is large enough for every field.
pub open spec fn header_sized(s: Seq<u8>) -> bool {
    s.len() >= FREE_LIST_CONTENT_OFFSET + 4 * HEADER_FREE_LIST_MAX_SIZE
}

/// The invariants of a header: the free list fits, holds no page 0 and
/// only ids under the water mark.
pub open spec fn header_valid(s: Seq<u8>) -> bool {
    &&& header_sized(s)
    &&& null_page_bar_of(s) >= 1
    &&& free_list_size_of(s) <= HEADER_FREE_LIST_MAX_SIZE
    &&& forall|i: int|
        0 <= i < free_list_size_of(s) ==> 0 < #[trigger] free_list_entry_of(s, i)
            < null_page_bar_of(s)
}

/// Whether `s` is a well-formed header page.
pub fn header_is_valid(s: &Vec<u8>) -> (r: bool)
    ensures
        r == header_valid(s@),
{
    if s.len() < FREE_LIST_CONTENT_OFFSET + 4 * HEADER_FREE_LIST_MAX_SIZE {
        return false;
    }
    let bar = read_u32(s, NULL_PAGE_BAR_OFFSET);
    let size = read_u32(s, FREE_LIST_SIZE_OFFSET);
    if bar < 1 || size as usize > HEADER_FREE_LIST_MAX_SIZE {
        return false;
    }
    let mut i: u32 = 0;
    while i < size
        invariant
            header_sized(s@),
            bar == null_page_bar_of(s@),
            size == free_list_size_of(s@),
            size <= HEADER_FREE_LIST_MAX_SIZE,
            i <= size,
            forall|j: int| 0 <= j < i ==> 0 < #[trigger] free_list_entry_of(s@, j) < bar,
        decreases size - i,
    {
        let e = read_u32(s, FREE_LIST_CONTENT_OFFSET + 4 * (i as usize));
        if e == 0 || e >= bar {
            assert(!(0 < free_list_entry_of(s@, i as int) < bar));
            return false;
        }
        i = i + 1;
    }
    true
}

/// Typed accessors over the raw header page.
pub struct HeaderPageWrapper(pub RawPage);

impl HeaderPageWrapper {
    /// A fresh header: water mark 1, empty free list, no overflow page.
    pub fn init(page_id: u32, page_size: u32) -> (r: HeaderPageWrapper)
        requires
            valid_page_size(page_size),
        ensures
            r.0.page_id == page_id,
            r.0.data@.len() == page_size,
            header_valid(r.0.data@),
            null_page_bar_of(r.0.data@) == 1,
            free_list_size_of(r.0.data@) == 0,
            free_list_page_id_of(r.0.data@) == 0,
    {
        let mut raw = RawPage::new(page_id, page_size);
        assert(free_list_size_of(raw.data@) == 0);
        assert(free_list_page_id_of(raw.data@) == 0);
        write_u32(&mut raw.data, NULL_PAGE_BAR_OFFSET, 1);
        assert(free_list_size_of(raw.data@) == 0);
        HeaderPageWrapper(raw)
    }

    pub fn from_raw_page(raw: RawPage) -> (r: HeaderPageWrapper)
        ensures
            r.0 == raw,
    {
        HeaderPageWrapper(raw)
    }

    pub fn get_null_page_bar(&self) -> (r: u32)
        requires
            header_sized(self.0.data@),
        ensures
            r == null_page_bar_of(self.0.data@),
    {
        read_u32(&self.0.data, NULL_PAGE_BAR_OFFSET)
    }

    pub fn set_null_page_bar(&mut self, v: u32)
        requires
            header_sized(old(self).0.data@),
        ensures
            final(self).0.page_id == old(self).0.page_id,
            null_page_bar_of(final(self).0.data@) == v,
            same_outside(old(self).0.data@, final(self).0.data@, NULL_PAGE_BAR_OFFSET as int, 4),
    {
        write_u32(&mut self.0.data, NULL_PAGE_BAR_OFFSET, v)
    }

    pub fn get_free_list_size(&self) -> (r: u32)
        requires
            header_sized(self.0.data@),
        ensures
            r == free_list_size_of(self.0.data@),
    {
        read_u32(&self.0.data, FREE_LIST_SIZE_OFFSET)
    }

    pub fn set_free_list_size(&mut self, v: u32)
        requires
            header_sized(old(self).0.data@),
        ensures
            final(self).0.page_id == old(self).0.page_id,
            free_list_size_of(final(self).0.data@) == v,
            same_outside(old(self).0.data@, final(self).0.data@, FREE_LIST_SIZE_OFFSET as int, 4),
    {
        write_u32(&mut self.0.data, FREE_LIST_SIZE_OFFSET, v)
    }

    pub fn get_free_list_page_id(&self) -> (r: u32)
        requires
            header_sized(self.0.data@),
        ensures
            r == free_list_page_id_of(self.0.data@),
    {
        read_u32(&self.0.data, FREE_LIST_PAGE_ID_OFFSET)
    }

    pub fn get_free_list_content(&self, index: u32) -> (r: u32)
        requires
            header_sized(self.0.data@),
            index < HEADER_FREE_LIST_MAX_SIZE,
        ensures
            r == free_list_entry_of(self.0.data@, index as int),
    {
        read_u32(&self.0.data, FREE_LIST_CONTENT_OFFSET + 4 * (index as usize))
    }

    pub fn set_free_list_content(&mut self, index: u32, pid: u32)
        requires
            header_sized(old(self).0.data@),
            index < HEADER_FREE_LIST_MAX_SIZE,
        ensures
            final(self).0.page_id == old(self).0.page_id,
            free_list_entry_of(final(self).0.data@, index as int) == pid,
            same_outside(
                old(self).0.data@,
                final(self).0.data@,
                FREE_LIST_CONTENT_OFFSET + 4 * index,
                4,
            ),
    {
        write_u32(&mut self.0.data, FREE_LIST_CONTENT_OFFSET + 4 * (index as usize), pid)
    }
}

} // verus!
