//! In-memory page cache: a lookup returns the last version inserted, or
//! nothing once the entry has been evicted.
use vstd::prelude::*;
use crate::page::{RawPage, latest, find_latest, lemma_latest_push};

verus! {

/// Number of page versions held before the cache starts over.
pub const CACHE_CAPACITY: usize = 1024;

pub struct PageCache {
    pages: Vec<RawPage>,
}

impl PageCache {
    /// What a lookup of `pid` returns.
    pub closed spec fn cached(&self, pid: u32) -> Option<Seq<u8>> {
        latest(self.pages@, pid)
    }

    pub fn new_default(_page_size: u32) -> (r: PageCache)
        ensures
            forall|pid: u32| #[trigger] r.cached(pid) is None,
    {
        PageCache { pages: Vec::new() }
    }

    /// Records `page` as the newest version of its id; other entries may be
    /// evicted, never changed.
    pub fn insert_to_cache(&mut self, page: &RawPage)
        ensures
            final(self).cached(page.page_id) == Some(page.data@),
            forall|pid: u32|
                #![trigger final(self).cached(pid)]
                pid != page.page_id ==> final(self).cached(pid) is None || final(self).cached(pid)
                    == old(self).cached(pid),
    {
        if self.pages.len() >= CACHE_CAPACITY {
            self.pages = Vec::new();
        }
        let ghost before = self.pages@;
        self.pages.push(page.duplicate());
        proof {
            assert forall|pid: u32| #[trigger] latest(self.pages@, pid) == (if pid == page.page_id {
                Some(page.data@)
            } else {
                latest(before, pid)
            }) by {
                lemma_latest_push(before, self.pages@.last(), pid);
                assert(before.push(self.pages@.last()) =~= self.pages@);
            }
            assert forall|pid: u32| before.len() == 0 implies #[trigger] latest(before, pid) is None by {}
        }
    }

    pub fn get_from_cache(&self, pid: u32) -> (r: Option<RawPage>)
        ensures
            match r {
                Some(p) => p.page_id == pid && self.cached(pid) == Some(p.data@),
                None => self.cached(pid) is None,
            },
    {
        find_latest(&self.pages, pid)
    }
}

} // verus!
