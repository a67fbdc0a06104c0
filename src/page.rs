//! Raw pages and logs of page versions where the latest version wins.
use vstd::prelude::*;
use crate::bytes::{copy_bytes, zeros};

verus! {

/// A page-sized buffer together with the id of the page it belongs to.
pub struct RawPage {
    pub page_id: u32,
    pub data: Vec<u8>,
}

impl RawPage {
    /// A zero-filled page.
    pub fn new(page_id: u32, page_size: u32) -> (r: RawPage)
        ensures
            r.page_id == page_id,
            r.data@ == Seq::new(page_size as nat, |_j: int| 0u8),
    {
        RawPage { page_id, data: zeros(page_size as usize) }
    }

    /// An owned copy of this page.
    pub fn duplicate(&self) -> (r: RawPage)
        ensures
            r.page_id == self.page_id,
            r.data@ == self.data@,
    {
        RawPage { page_id: self.page_id, data: copy_bytes(self.data.as_slice()) }
    }
}

/// The contents of the last version of page `pid` in `log`, if any.
pub open spec fn latest(log: Seq<RawPage>, pid: u32) -> Option<Seq<u8>>
    decreases log.len(),
{
    if log.len() == 0 {
        None
    } else if log.last().page_id == pid {
        Some(log.last().data@)
    } else {
        latest(log.drop_last(), pid)
    }
}

pub proof fn lemma_latest_push(log: Seq<RawPage>, p: RawPage, pid: u32)
    ensures
        latest(log.push(p), pid) == (if p.page_id == pid {
            Some(p.data@)
        } else {
            latest(log, pid)
        }),
{
    assert(log.push(p).drop_last() =~= log);
}

/// Finds the last version of page `pid` in `log` and copies it out.
pub fn find_latest(log: &Vec<RawPage>, pid: u32) -> (r: Option<RawPage>)
    ensures
        match r {
            Some(p) => p.page_id == pid && latest(log@, pid) == Some(p.data@),
            None => latest(log@, pid) is None,
        },
{
    let mut i: usize = log.len();
    assert(log@.subrange(0, i as int) =~= log@);
    while i > 0
        invariant
            i <= log@.len(),
            latest(log@, pid) == latest(log@.subrange(0, i as int), pid),
        decreases i,
    {
        assert(log@.subrange(0, i as int).drop_last() =~= log@.subrange(0, i - 1));
        if log[i - 1].page_id == pid {
            return Some(log[i - 1].duplicate());
        }
        i = i - 1;
    }
    None
}

} // verus!
