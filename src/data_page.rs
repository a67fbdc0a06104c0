//! Slotted data pages. Layout: the slot count (u16) at byte 0, the start of
//! the record area (u16) at byte 2, then one directory entry per slot
//! (record offset u16, record length u16); records are packed downwards
//! from the end of the page. A removed slot keeps its entry with the
//! length `TOMBSTONE`, so slot indices never move.
use vstd::prelude::*;
use crate::bytes::{be_u16, read_u16, write_u16, write_at};
use crate::header::valid_page_size;
use crate::page::RawPage;

verus! {

pub const SLOT_COUNT_OFFSET: usize = 0;

pub const DATA_END_OFFSET: usize = 2;

pub const SLOT_DIR_OFFSET: usize = 4;

/// Directory bytes taken by each slot.
pub const SLOT_ENTRY_SIZE: usize = 4;

/// Length recorded for a removed slot.
pub const TOMBSTONE: u16 = 0xffff;

pub open spec fn slot_count_of(s: Seq<u8>) -> int {
    be_u16(s, SLOT_COUNT_OFFSET as int)
}

pub open spec fn data_end_of(s: Seq<u8>) -> int {
    be_u16(s, DATA_END_OFFSET as int)
}

/// One past the directory of a page with `count` slots.
pub open spec fn dir_end(count: int) -> int {
    SLOT_DIR_OFFSET + SLOT_ENTRY_SIZE * count
}

pub open spec fn entry_offset_of(s: Seq<u8>, i: int) -> int {
    be_u16(s, SLOT_DIR_OFFSET + SLOT_ENTRY_SIZE * i)
}

pub open spec fn entry_len_of(s: Seq<u8>, i: int) -> int {
    be_u16(s, SLOT_DIR_OFFSET + SLOT_ENTRY_SIZE * i + 2)
}

/// The record in slot `i`, or nothing for a removed or missing slot.
pub open spec fn slot_of(s: Seq<u8>, i: int) -> Option<Seq<u8>> {
    if 0 <= i < slot_count_of(s) && dir_end(i + 1) <= s.len() && entry_len_of(s, i)
        != TOMBSTONE && entry_offset_of(s, i) + entry_len_of(s, i) <= s.len() {
        Some(s.subrange(entry_offset_of(s, i), entry_offset_of(s, i) + entry_len_of(s, i)))
    } else {
        None
    }
}

/// All slots of the page, in index order.
pub open spec fn slots_of(s: Seq<u8>) -> Seq<Option<Seq<u8>>> {
    Seq::new(slot_count_of(s) as nat, |i: int| slot_of(s, i))
}

/// Bytes that a new record may take; two more go to its directory entry
/// beside the two that callers reserve.
pub open spec fn remain_of(s: Seq<u8>) -> int {
    if dir_end(slot_count_of(s)) + 2 <= data_end_of(s) <= s.len() {
        data_end_of(s) - dir_end(slot_count_of(s)) - 2
    } else {
        0
    }
}

/// No slot of the page holds a record.
pub open spec fn no_live_slot(s: Seq<u8>) -> bool {
    forall|i: int| 0 <= i < slot_count_of(s) ==> #[trigger] slot_of(s, i) is None
}

/// The directory and the record area do not overlap, and every live record
/// lies inside the record area.
pub open spec fn data_page_valid(s: Seq<u8>) -> bool {
    &&& dir_end(slot_count_of(s)) <= data_end_of(s) <= s.len()
    &&& forall|i: int|
        0 <= i < slot_count_of(s) && #[trigger] entry_len_of(s, i) != TOMBSTONE ==> data_end_of(s)
            <= entry_offset_of(s, i) && entry_offset_of(s, i) + entry_len_of(s, i) <= s.len()
}

pub struct DataPageWrapper {
    page: RawPage,
}

impl DataPageWrapper {
    pub closed spec fn spec_page(&self) -> RawPage {
        self.page
    }

    pub open spec fn bytes(&self) -> Seq<u8> {
        self.spec_page().data@
    }

    /// An empty data page for `pid`.
    pub fn init(pid: u32, page_size: u32) -> (r: DataPageWrapper)
        requires
            valid_page_size(page_size),
        ensures
            r.spec_page().page_id == pid,
            r.bytes().len() == page_size,
            data_page_valid(r.bytes()),
            slots_of(r.bytes()) == Seq::<Option<Seq<u8>>>::empty(),
            remain_of(r.bytes()) == page_size - dir_end(0) - 2,
    {
        let mut page = RawPage::new(pid, page_size);
        assert(slot_count_of(page.data@) == 0);
        write_u16(&mut page.data, DATA_END_OFFSET, page_size as u16);
        assert(page.data@[0] == 0 && page.data@[1] == 0);
        assert(slots_of(page.data@) =~= Seq::<Option<Seq<u8>>>::empty());
        DataPageWrapper { page }
    }

    pub fn from_raw(page: RawPage) -> (r: DataPageWrapper)
        ensures
            r.spec_page() == page,
    {
        DataPageWrapper { page }
    }

    pub fn consume_page(self) -> (r: RawPage)
        ensures
            r == self.spec_page(),
    {
        self.page
    }

    pub fn borrow_page(&self) -> (r: &RawPage)
        ensures
            *r == self.spec_page(),
    {
        &self.page
    }

    pub fn pid(&self) -> (r: u32)
        ensures
            r == self.spec_page().page_id,
    {
        self.page.page_id
    }

    /// The number of slots, removed ones included.
    pub fn bar_len(&self) -> (r: u32)
        ensures
            r <= 0xffff,
            r == (if self.bytes().len() >= 2 {
                slot_count_of(self.bytes())
            } else {
                0
            }),
    {
        if self.page.data.len() < 2 {
            return 0;
        }
        read_u16(&self.page.data, SLOT_COUNT_OFFSET) as u32
    }

    pub fn remain_size(&self) -> (r: u32)
        ensures
            r == (if self.bytes().len() >= 4 {
                remain_of(self.bytes())
            } else {
                0
            }),
    {
        if self.page.data.len() < 4 {
            return 0;
        }
        let count = read_u16(&self.page.data, SLOT_COUNT_OFFSET) as usize;
        let end = read_u16(&self.page.data, DATA_END_OFFSET) as usize;
        let dir = SLOT_DIR_OFFSET + SLOT_ENTRY_SIZE * count;
        if dir + 2 <= end && end <= self.page.data.len() {
            (end - dir - 2) as u32
        } else {
            0
        }
    }

    /// Whether the page's layout is sound.
    pub fn is_valid(&self) -> (r: bool)
        ensures
            r == data_page_valid(self.bytes()),
    {
        let data = &self.page.data;
        if data.len() < 4 {
            return false;
        }
        let count = read_u16(data, SLOT_COUNT_OFFSET) as usize;
        let end = read_u16(data, DATA_END_OFFSET) as usize;
        let dir = SLOT_DIR_OFFSET + SLOT_ENTRY_SIZE * count;
        if dir > end || end > data.len() {
            return false;
        }
        let mut i: usize = 0;
        while i < count
            invariant
                data@ == self.bytes(),
                count == slot_count_of(data@),
                end == data_end_of(data@),
                dir_end(count as int) <= end <= data@.len(),
                i <= count,
                forall|j: int|
                    0 <= j < i && #[trigger] entry_len_of(data@, j) != TOMBSTONE ==> end
                        <= entry_offset_of(data@, j) && entry_offset_of(data@, j) + entry_len_of(
                        data@,
                        j,
                    ) <= data@.len(),
            decreases count - i,
        {
            let e = SLOT_DIR_OFFSET + SLOT_ENTRY_SIZE * i;
            let off = read_u16(data, e) as usize;
            let len = read_u16(data, e + 2);
            if len != TOMBSTONE && (off < end || off + (len as usize) > data.len()) {
                assert(entry_len_of(data@, i as int) != TOMBSTONE);
                return false;
            }
            i = i + 1;
        }
        true
    }

    /// Where slot `index`'s record lies, if the slot holds one.
    fn locate(&self, index: u32) -> (r: Option<(usize, usize)>)
        ensures
            match r {
                Some((start, end)) => start <= end <= self.bytes().len() && slot_of(
                    self.bytes(),
                    index as int,
                ) == Some(self.bytes().subrange(start as int, end as int)),
                None => slot_of(self.bytes(), index as int) is None,
            },
    {
        let data = &self.page.data;
        if data.len() < 2 {
            return None;
        }
        let count = read_u16(data, SLOT_COUNT_OFFSET) as u32;
        if index >= count {
            return None;
        }
        let entry = SLOT_DIR_OFFSET + SLOT_ENTRY_SIZE * (index as usize);
        if entry + SLOT_ENTRY_SIZE > data.len() {
            return None;
        }
        let off = read_u16(data, entry) as usize;
        let len = read_u16(data, entry + 2);
        if len == TOMBSTONE {
            return None;
        }
        if off + (len as usize) > data.len() {
            return None;
        }
        Some((off, off + (len as usize)))
    }

    /// A copy of the record in slot `index`, if the slot holds one.
    pub fn get(&self, index: u32) -> (r: Option<Vec<u8>>)
        ensures
            match r {
                Some(v) => slot_of(self.bytes(), index as int) == Some(v@),
                None => slot_of(self.bytes(), index as int) is None,
            },
    {
        match self.locate(index) {
            Some((start, end)) => Some(crate::bytes::copy_range(&self.page.data, start, end)),
            None => None,
        }
    }

    /// Whether no slot holds a record.
    pub fn is_empty(&self) -> (r: bool)
        ensures
            r == no_live_slot(self.bytes()),
    {
        let count: u32 = self.bar_len();
        let mut i: u32 = 0;
        while i < count
            invariant
                count == (if self.bytes().len() >= 2 {
                    slot_count_of(self.bytes())
                } else {
                    0
                }),
                i <= count,
                forall|j: int| 0 <= j < i ==> #[trigger] slot_of(self.bytes(), j) is None,
            decreases count - i,
        {
            if self.locate(i).is_some() {
                return false;
            }
            i = i + 1;
        }
        proof {
            if self.bytes().len() < 2 {
                assert forall|j: int| 0 <= j < slot_count_of(self.bytes()) implies #[trigger] slot_of(
                    self.bytes(),
                    j,
                ) is None by {}
            }
        }
        true
    }

    /// Marks slot `index` removed; indices of other slots stay as they are.
    pub fn remove(&mut self, index: u32)
        requires
            data_page_valid(old(self).bytes()),
        ensures
            final(self).spec_page().page_id == old(self).spec_page().page_id,
            final(self).bytes().len() == old(self).bytes().len(),
            data_page_valid(final(self).bytes()),
            remain_of(final(self).bytes()) == remain_of(old(self).bytes()),
            slots_of(final(self).bytes()) == (if index < slots_of(old(self).bytes()).len() {
                slots_of(old(self).bytes()).update(index as int, None)
            } else {
                slots_of(old(self).bytes())
            }),
    {
        let ghost s = self.page.data@;
        let count = read_u16(&self.page.data, SLOT_COUNT_OFFSET) as u32;
        if index >= count {
            return;
        }
        let pos = SLOT_DIR_OFFSET + SLOT_ENTRY_SIZE * (index as usize) + 2;
        write_u16(&mut self.page.data, pos, TOMBSTONE);
        proof {
            let t = self.page.data@;
            assert(slot_count_of(t) == slot_count_of(s));
            assert(data_end_of(t) == data_end_of(s));
            assert forall|i: int| 0 <= i < slot_count_of(s) && i != index implies entry_len_of(t, i)
                == entry_len_of(s, i) && entry_offset_of(t, i) == entry_offset_of(s, i) by {}
            assert forall|i: int|
                0 <= i < slot_count_of(t) && #[trigger] entry_len_of(t, i) != TOMBSTONE implies data_end_of(t)
                <= entry_offset_of(t, i) && entry_offset_of(t, i) + entry_len_of(t, i) <= t.len() by {
                assert(entry_len_of(s, i) != TOMBSTONE);
            }
            assert forall|i: int| 0 <= i < slot_count_of(s) && i != index implies #[trigger] slot_of(t, i)
                == slot_of(s, i) by {
                if slot_of(s, i) is Some {
                    let o = entry_offset_of(s, i);
                    let l = entry_len_of(s, i);
                    assert(t.subrange(o, o + l) =~= s.subrange(o, o + l));
                }
            }
            assert(slots_of(t) =~= slots_of(s).update(index as int, None));
        }
    }

    /// Appends `data` as a new slot, whose index is the old slot count.
    pub fn put(&mut self, data: &Vec<u8>)
        requires
            data_page_valid(old(self).bytes()),
            data@.len() + 2 <= remain_of(old(self).bytes()),
        ensures
            final(self).spec_page().page_id == old(self).spec_page().page_id,
            final(self).bytes().len() == old(self).bytes().len(),
            data_page_valid(final(self).bytes()),
            slots_of(final(self).bytes()) == slots_of(old(self).bytes()).push(Some(data@)),
            remain_of(final(self).bytes()) == (if remain_of(old(self).bytes()) >= data@.len() + 4 {
                remain_of(old(self).bytes()) - data@.len() - 4
            } else {
                0
            }),
    {
        let ghost s = self.page.data@;
        let count = read_u16(&self.page.data, SLOT_COUNT_OFFSET) as usize;
        let end = read_u16(&self.page.data, DATA_END_OFFSET) as usize;
        let start = end - data.len();
        let entry = SLOT_DIR_OFFSET + SLOT_ENTRY_SIZE * count;
        write_at(&mut self.page.data, start, data);
        let ghost s1 = self.page.data@;
        write_u16(&mut self.page.data, entry, start as u16);
        let ghost s2 = self.page.data@;
        write_u16(&mut self.page.data, entry + 2, data.len() as u16);
        let ghost s3 = self.page.data@;
        write_u16(&mut self.page.data, SLOT_COUNT_OFFSET, (count + 1) as u16);
        let ghost s4 = self.page.data@;
        write_u16(&mut self.page.data, DATA_END_OFFSET, start as u16);
        proof {
            let t = self.page.data@;
            let n = data@.len() as int;
            // bytes past the header and outside the new entry and record are untouched
            assert forall|j: int|
                4 <= j < s.len() && !(entry <= j < entry + 4) && !(start <= j < end) implies #[trigger] t[j]
                == s[j] by {
                assert(s1[j] == s[j]);
                assert(s2[j] == s1[j]);
                assert(s3[j] == s2[j]);
                assert(s4[j] == s3[j]);
            }
            assert forall|j: int| entry <= j < entry + 4 implies #[trigger] t[j] == s3[j] by {
                assert(s4[j] == s3[j]);
            }
            assert forall|j: int| start <= j < end implies #[trigger] t[j] == s1[j] by {
                assert(s2[j] == s1[j]);
                assert(s3[j] == s2[j]);
                assert(s4[j] == s3[j]);
            }
            assert(slot_count_of(t) == count + 1);
            assert(data_end_of(t) == start);
            assert(entry_offset_of(t, count as int) == start);
            assert(entry_len_of(t, count as int) == n);
            assert(t.subrange(start as int, end as int) =~= data@) by {
                assert forall|k: int| 0 <= k < n implies #[trigger] t.subrange(start as int, end as int)[k]
                    == data@[k] by {
                    assert(s1.subrange(start as int, start + n)[k] == data@[k]);
                }
            }
            assert forall|i: int| 0 <= i < count implies entry_len_of(t, i) == entry_len_of(s, i)
                && entry_offset_of(t, i) == entry_offset_of(s, i) by {
                let e = SLOT_DIR_OFFSET + SLOT_ENTRY_SIZE * i;
                assert(t[e] == s[e] && t[e + 1] == s[e + 1] && t[e + 2] == s[e + 2] && t[e + 3]
                    == s[e + 3]);
            }
            assert forall|i: int|
                0 <= i < slot_count_of(t) && #[trigger] entry_len_of(t, i) != TOMBSTONE implies data_end_of(t)
                <= entry_offset_of(t, i) && entry_offset_of(t, i) + entry_len_of(t, i) <= t.len() by {
                if i < count {
                    assert(entry_len_of(s, i) != TOMBSTONE);
                }
            }
            assert forall|i: int| 0 <= i < count implies #[trigger] slot_of(t, i) == slot_of(s, i) by {
                if entry_len_of(s, i) != TOMBSTONE {
                    let o = entry_offset_of(s, i);
                    let l = entry_len_of(s, i);
                    assert forall|k: int| 0 <= k < l implies #[trigger] t.subrange(o, o + l)[k] == s.subrange(o, o + l)[k] by {
                        assert(t[o + k] == s[o + k]);
                    }
                    assert(t.subrange(o, o + l) =~= s.subrange(o, o + l));
                }
            }
            assert(slot_of(t, count as int) == Some(data@));
            assert(slots_of(t) =~= slots_of(s).push(Some(data@)));
        }
    }
}

} // verus!
