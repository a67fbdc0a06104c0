//! The page handler: routes page reads and writes through the cache, the
//! journal and the main file, allocates and frees page ids, packs documents
//! into data pages and drives transactions.
use vstd::prelude::*;
use crate::bucket::{FreeBucketMap, best_fit_key, taken_from};
use crate::bytes::{copy_range, zeros, lemma_u32_kept};
use crate::cache::PageCache;
use crate::error::DbErr;
use crate::header::{
    header_is_valid, header_valid, valid_page_size, HeaderPageWrapper, null_page_bar_of,
    free_list_of, free_list_size_of, free_list_page_id_of, free_list_entry_of, header_sized,
    HEADER_FREE_LIST_MAX_SIZE,
};
use crate::journal::{file_page, fits_in_file, page_end, write_page_to_file, JournalManager, TransactionType};
use crate::page::RawPage;
use crate::data_page::{DataPageWrapper, data_page_valid, slot_of, slots_of, slot_count_of, remain_of, no_live_slot, dir_end};

verus! {

/// Pages in a fresh main file, and the step by which the file grows.
pub const DB_INIT_BLOCK_COUNT: u32 = 16;

/// Data pages with fewer free bytes are not offered for new records.
pub const PRESERVE_WRAPPER_MIN_REMAIN_SIZE: u32 = 16;

/// A commit checkpoints once the journal holds this many writes.
pub const JOURNAL_FULL_SIZE: usize = 1000;

#[derive(Debug, Clone, Copy, PartialEq, Eq, Structural)]
pub enum TransactionState {
    NoTrans,
    User,
    UserAuto,
    DbAuto,
}

#[derive(Debug, Clone, Copy, PartialEq, Eq, Structural)]
pub struct AutoStartResult {
    pub auto_start: bool,
}

/// Where a stored document lives: its page and its slot in that page.
#[derive(Debug, Clone, Copy, PartialEq, Eq, Structural)]
pub struct DataTicket {
    pub pid: u32,
    pub index: u16,
}

/// The logical size of the main file once the water mark is `bar`: it
/// grows by `DB_INIT_BLOCK_COUNT` pages, saturating, when the mark reaches it.
pub open spec fn grown_size(size: u64, bar: int, page_size: u32) -> u64 {
    if bar >= size {
        if size + DB_INIT_BLOCK_COUNT * page_size <= u64::MAX {
            (size + DB_INIT_BLOCK_COUNT * page_size) as u64
        } else {
            u64::MAX
        }
    } else {
        size
    }
}

/// Removing slot `index` leaves page `d` without a record.
pub open spec fn empties_on_free(d: Seq<u8>, index: int) -> bool {
    forall|i: int| 0 <= i < slot_count_of(d) && i != index ==> #[trigger] slot_of(d, i) is None
}

/// `pid` is the id that `alloc_page_id` hands out from `old`, and `new`'s
/// header, page count and logical file size are what that leaves.
pub open spec fn alloc_effect(old: PageHandler, new: PageHandler, pid: u32) -> bool {
    &&& 0 < pid < null_page_bar_of(new.header())
    &&& new.spec_page_count() == old.spec_page_count() + 1
    &&& free_list_page_id_of(new.header()) == free_list_page_id_of(
        old.header(),
    )
    &&& if free_list_of(old.header()).len() > 0 {
        &&& new.spec_last_commit_db_size() == old.spec_last_commit_db_size()
        &&& pid == free_list_of(old.header()).last()
        &&& free_list_of(new.header()) == free_list_of(
            old.header(),
        ).drop_last()
        &&& null_page_bar_of(new.header()) == null_page_bar_of(
            old.header(),
        )
    } else {
        &&& new.spec_last_commit_db_size() == grown_size(
            old.spec_last_commit_db_size(),
            null_page_bar_of(old.header()) + 1,
            old.spec_page_size(),
        )
        &&& pid == null_page_bar_of(old.header())
        &&& free_list_of(new.header()) == free_list_of(old.header())
        &&& null_page_bar_of(new.header()) == null_page_bar_of(
            old.header(),
        ) + 1
    }
}

/// `after` is `before` with `page` filed under its free bytes when it has at
/// least `PRESERVE_WRAPPER_MIN_REMAIN_SIZE` of them and fewer than half of
/// `u16::MAX` slots, and `before` otherwise.
pub open spec fn filed_after(after: FreeBucketMap, before: FreeBucketMap, page: Seq<u8>, pid: u32) -> bool {
    if remain_of(page) >= PRESERVE_WRAPPER_MIN_REMAIN_SIZE && slot_count_of(page) < 0xffffint / 2 {
        &&& after.bucket(remain_of(page) as u32) == before.bucket(remain_of(page) as u32).push(pid)
        &&& forall|k: u32| k != remain_of(page) ==> #[trigger] after.bucket(k) == before.bucket(k)
    } else {
        forall|k: u32| #[trigger] after.bucket(k) == before.bucket(k)
    }
}

/// Page `pid` of `h` reads back as a sound data page under the water mark,
/// holding a record and `need` free bytes.
pub open spec fn candidate_ok(h: PageHandler, pid: u32, need: int) -> bool {
    &&& pid != 0
    &&& pid < null_page_bar_of(h.header())
    &&& h.page_view(pid) matches Some(d) && d.len() == h.spec_page_size() && data_page_valid(d)
        && remain_of(d) >= need && !no_live_slot(d)
}

/// Whether every id in `pages` is a page other than the header and lies
/// under `bar`.
fn ids_below(pages: &[u32], bar: u32) -> (r: bool)
    ensures
        r == forall|j: int| 0 <= j < pages@.len() ==> 0 < #[trigger] pages@[j] < bar,
{
    let mut k: usize = 0;
    while k < pages.len()
        invariant
            k <= pages@.len(),
            forall|j: int| 0 <= j < k ==> 0 < #[trigger] pages@[j] < bar,
        decreases pages@.len() - k,
    {
        if pages[k] == 0 || pages[k] >= bar {
            return false;
        }
        k = k + 1;
    }
    true
}

pub struct PageHandler {
    file: Vec<u8>,
    pub last_commit_db_size: u64,
    pub page_size: u32,
    page_count: u32,
    page_cache: PageCache,
    journal_manager: JournalManager,
    data_page_map: FreeBucketMap,
    transaction_state: TransactionState,
}

impl PageHandler {
    /// What a read of page `pid` returns: the journal's newest version,
    /// else the main file's; nothing past the end of the file.
    pub closed spec fn page_view(&self, pid: u32) -> Option<Seq<u8>> {
        match self.journal_manager.journaled(pid) {
            Some(d) => Some(d),
            None => file_page(self.file@, pid, self.page_size),
        }
    }

    /// The bytes of the header page.
    pub open spec fn header(&self) -> Seq<u8> {
        self.page_view(0)->Some_0
    }

    pub closed spec fn cached(&self, pid: u32) -> Option<Seq<u8>> {
        self.page_cache.cached(pid)
    }

    pub closed spec fn spec_page_size(&self) -> u32 {
        self.page_size
    }

    pub closed spec fn spec_last_commit_db_size(&self) -> u64 {
        self.last_commit_db_size
    }

    /// The number of writes the journal holds.
    pub closed spec fn spec_journal_len(&self) -> nat {
        self.journal_manager.spec_len()
    }

    /// The number of writes of the open transaction.
    pub closed spec fn spec_journal_pending_len(&self) -> nat {
        self.journal_manager.spec_pending_len()
    }

    /// Every committed write lies where the main file can grow to hold it.
    pub closed spec fn checkpoint_fits(&self) -> bool {
        forall|pid: u32|
            #[trigger] self.journal_manager.committed_has(pid) ==> page_end(pid, self.page_size)
                <= usize::MAX
    }

    pub closed spec fn spec_page_count(&self) -> u32 {
        self.page_count
    }

    pub closed spec fn spec_state(&self) -> TransactionState {
        self.transaction_state
    }

    pub closed spec fn spec_transaction_type(&self) -> Option<TransactionType> {
        self.journal_manager.spec_transaction_type()
    }

    pub closed spec fn spec_map(&self) -> FreeBucketMap {
        self.data_page_map
    }

    pub closed spec fn spec_file(&self) -> Seq<u8> {
        self.file@
    }

    pub open spec fn can_write(&self) -> bool {
        self.spec_transaction_type() == Some(TransactionType::Write)
    }

    /// The page size, transaction and free-bucket map are as in `o`.
    pub open spec fn same_core(&self, o: PageHandler) -> bool {
        &&& self.same_session(o)
        &&& self.spec_map() == o.spec_map()
    }

    /// The page size and the transaction are as in `o`.
    pub open spec fn same_session(&self, o: PageHandler) -> bool {
        &&& self.spec_page_size() == o.spec_page_size()
        &&& self.spec_state() == o.spec_state()
        &&& self.spec_transaction_type() == o.spec_transaction_type()
    }

    /// No transaction has writes of its own.
    pub closed spec fn no_pending(&self) -> bool {
        forall|pid: u32| #[trigger] self.journal_manager.pending_page(pid) is None
    }

    /// The journal holds no page: every read goes to the main file.
    pub closed spec fn journal_empty(&self) -> bool {
        forall|pid: u32| #[trigger] self.journal_manager.journaled(pid) is None
    }

    /// With an empty journal, a page reads as the main file holds it.
    pub proof fn lemma_reads_from_file(&self, pid: u32)
        requires
            self.journal_empty(),
        ensures
            self.page_view(pid) == file_page(self.spec_file(), pid, self.spec_page_size()),
    {
        assert(self.journal_manager.journaled(pid) is None);
    }

    /// What slot `t.index` of page `t.pid` holds.
    pub open spec fn ticket_content(&self, t: DataTicket) -> Option<Seq<u8>> {
        match self.page_view(t.pid) {
            Some(d) => slot_of(d, t.index as int),
            None => None,
        }
    }

    /// A new record of `n` bytes fits in an empty data page.
    pub open spec fn fits_empty_page(&self, n: int) -> bool {
        n + 2 <= self.spec_page_size() - dir_end(0) - 2
    }

    /// A fresh page id can be handed out.
    pub open spec fn can_alloc(&self) -> bool {
        &&& self.can_write()
        &&& self.spec_page_count() < u32::MAX
        &&& (free_list_of(self.header()).len() > 0 || null_page_bar_of(self.header()) < u32::MAX)
    }

    /// Everything but the pages and the cache is as in `o`.
    pub open spec fn same_meta(&self, o: PageHandler) -> bool {
        &&& self.same_core(o)
        &&& self.spec_page_count() == o.spec_page_count()
        &&& self.spec_last_commit_db_size() == o.spec_last_commit_db_size()
    }

    /// Every page's last committed version is as in `o`.
    pub open spec fn same_committed(&self, o: PageHandler) -> bool {
        forall|q: u32| #[trigger] self.committed_view(q) == o.committed_view(q)
    }

    /// Every page reads as in `o`.
    pub open spec fn same_pages(&self, o: PageHandler) -> bool {
        forall|q: u32| #[trigger] self.page_view(q) == o.page_view(q)
    }

    /// Every page but `pid` reads as in `o`.
    pub open spec fn same_pages_except(&self, o: PageHandler, pid: u32) -> bool {
        forall|q: u32| q != pid ==> #[trigger] self.page_view(q) == o.page_view(q)
    }

    pub closed spec fn wf(&self) -> bool {
        &&& valid_page_size(self.page_size)
        &&& self.journal_manager.wf()
        &&& self.journal_manager.spec_page_size() == self.page_size
        &&& forall|pid: u32|
            #[trigger] self.page_cache.cached(pid) is Some ==> self.page_cache.cached(pid)
                == self.page_view(pid)
        &&& file_page(self.file@, 0, self.page_size) matches Some(h) && header_valid(h)
        &&& self.journal_manager.committed_page(0) matches Some(h) ==> header_valid(h)
        &&& self.journal_manager.pending_page(0) matches Some(h) ==> header_valid(h)
        &&& self.page_count >= 1
        &&& self.data_page_map.wf()
        &&& self.journal_manager.spec_transaction_type() is None ==> forall|pid: u32|
            #[trigger] self.journal_manager.pending_page(pid) is None
    }

    /// With no transaction open, every page reads as its last committed
    /// version.
    pub proof fn lemma_idle_reads_committed(&self)
        requires
            self.wf(),
            self.spec_transaction_type() is None,
        ensures
            forall|pid: u32| #[trigger] self.committed_view(pid) == self.page_view(pid),
    {
        assert forall|pid: u32| #[trigger] self.committed_view(pid) == self.page_view(pid) by {
            assert(self.journal_manager.pending_page(pid) is None);
        }
    }

    /// Where `usize` has 64 bits, the main file can grow to hold any page,
    /// so a checkpoint always succeeds.
    pub proof fn lemma_checkpoint_fits_on_64_bit(&self)
        requires
            self.wf(),
            usize::MAX == 0xffff_ffff_ffff_ffff,
        ensures
            self.checkpoint_fits(),
    {
        assert forall|pid: u32| #[trigger] self.journal_manager.committed_has(pid) implies page_end(
            pid,
            self.page_size,
        ) <= usize::MAX by {
            assert(pid as int * self.page_size as int <= 0xffff_ffff * 32768) by (nonlinear_arith)
                requires
                    pid <= 0xffff_ffff,
                    self.page_size <= 32768,
            ;
        }
    }

    /// Facts every well-formed handler gives its callers.
    pub proof fn lemma_wf(&self)
        requires
            self.wf(),
        ensures
            valid_page_size(self.spec_page_size()),
            self.page_view(0) is Some,
            header_valid(self.header()),
            self.spec_page_count() >= 1,
            forall|pid: u32|
                #[trigger] self.page_view(pid) matches Some(d) ==> d.len() == self.spec_page_size(),
    {
        self.journal_manager.lemma_layers_len(0);
        assert forall|pid: u32|
            #[trigger] self.page_view(pid) matches Some(d) ==> d.len() == self.page_size by {
            self.journal_manager.lemma_layers_len(pid);
        }
    }

    /// Opens a store over the main file's bytes. A file shorter than one
    /// page is replaced by `DB_INIT_BLOCK_COUNT` pages with a fresh header.
    pub fn new(file: Vec<u8>, page_size: u32) -> (r: Result<PageHandler, DbErr>)
        requires
            valid_page_size(page_size),
        ensures
            r is Err <==> file@.len() >= page_size && (!header_valid(
                file@.subrange(0, page_size as int),
            ) || file@.len() as int / (page_size as int) > u32::MAX),
            r is Err ==> r == Err::<PageHandler, DbErr>(DbErr::CorruptStore),
            r matches Ok(h) ==> {
                &&& h.wf()
                &&& h.spec_page_size() == page_size
                &&& h.spec_state() == TransactionState::NoTrans
                &&& h.spec_transaction_type() is None
                &&& forall|pid: u32| #[trigger] h.cached(pid) is None
                &&& h.journal_empty()
                &&& forall|k: u32| #[trigger] h.spec_map().bucket(k) == Seq::<u32>::empty()
                &&& h.spec_last_commit_db_size() == h.spec_file().len()
                &&& if file@.len() < page_size {
                    &&& h.spec_page_count() == DB_INIT_BLOCK_COUNT
                    &&& h.spec_file().len() == DB_INIT_BLOCK_COUNT * page_size
                    &&& null_page_bar_of(h.header()) == 1
                    &&& free_list_size_of(h.header()) == 0
                    &&& free_list_page_id_of(h.header()) == 0
                    &&& forall|pid: u32| pid < DB_INIT_BLOCK_COUNT ==> #[trigger] h.page_view(pid) is Some
                    &&& forall|t: DataTicket| t.pid != 0 ==> #[trigger] h.ticket_content(t) is None
                    &&& forall|pid: u32|
                        pid != 0 && #[trigger] h.page_view(pid) is Some ==> slots_of(
                            h.page_view(pid)->Some_0,
                        ) == Seq::<Option<Seq<u8>>>::empty()
                } else {
                    &&& h.spec_page_count() == file@.len() as int / (page_size as int)
                    &&& h.spec_file() == file@
                    &&& h.header() == file@.subrange(0, page_size as int)
                }
            },
    {
        let mut file = file;
        let page_count: u32;
        if file.len() < page_size as usize {
            assert(DB_INIT_BLOCK_COUNT == 16);
            file = zeros((page_size as usize) * 16);
            let ghost z = file@;
            let header = HeaderPageWrapper::init(0, page_size);
            write_page_to_file(&mut file, &header.0, page_size);
            proof {
                assert forall|pid: u32|
                    pid != 0 && #[trigger] file_page(file@, pid, page_size) is Some implies slots_of(
                    file_page(file@, pid, page_size)->Some_0,
                ) =~= Seq::<Option<Seq<u8>>>::empty() by {
                    assert(file_page(z, pid, page_size) is Some);
                    let d = file_page(z, pid, page_size)->Some_0;
                    assert(d[0] == 0u8 && d[1] == 0u8);
                    assert(slot_count_of(d) == 0);
                }
                assert forall|pid: u32| pid < DB_INIT_BLOCK_COUNT implies #[trigger] file_page(
                    file@,
                    pid,
                    page_size,
                ) is Some by {
                    assert(pid as int * page_size as int + page_size as int <= 16 * page_size as int)
                        by (nonlinear_arith)
                        requires
                            pid < 16,
                    ;
                }
                assert forall|pid: u32, i: int| pid != 0 && #[trigger] file_page(file@, pid, page_size) is Some
                    implies #[trigger] slot_of(file_page(file@, pid, page_size)->Some_0, i) is None by {
                    let d = file_page(z, pid, page_size)->Some_0;
                    assert(d[0] == 0u8 && d[1] == 0u8);
                    assert(slot_count_of(d) == 0);
                }
            }
            page_count = DB_INIT_BLOCK_COUNT;
        } else {
            let first = copy_range(&file, 0, page_size as usize);
            if !header_is_valid(&first) {
                return Err(DbErr::CorruptStore);
            }
            let count = file.len() / (page_size as usize);
            if count > u32::MAX as usize {
                return Err(DbErr::CorruptStore);
            }
            page_count = count as u32;
            assert(page_count >= 1) by (nonlinear_arith)
                requires
                    page_count == file@.len() as int / (page_size as int),
                    file@.len() >= page_size,
                    page_size > 0,
            ;
        }
        let last_commit_db_size = file.len() as u64;
        let h = PageHandler {
            file,
            last_commit_db_size,
            page_size,
            page_count,
            page_cache: PageCache::new_default(page_size),
            journal_manager: JournalManager::open(page_size),
            data_page_map: FreeBucketMap::new(),
            transaction_state: TransactionState::NoTrans,
        };
        proof {
            assert(h.page_view(0) == file_page(h.file@, 0, page_size));
        }
        Ok(h)
    }

    /// The main file's bytes, for saving after a checkpoint.
    pub fn main_file(&self) -> (r: &Vec<u8>)
        ensures
            r@ == self.spec_file(),
    {
        &self.file
    }

    /// Journals `page`, then makes it visible in the cache. Nothing changes
    /// when the journal refuses the write.
    pub fn pipeline_write_page(&mut self, page: &RawPage) -> (r: Result<(), DbErr>)
        requires
            old(self).wf(),
            page.data@.len() == old(self).spec_page_size(),
            page.page_id == 0 ==> header_valid(page.data@),
        ensures
            final(self).same_committed(*old(self)),
            final(self).wf(),
            !old(self).can_write() <==> r is Err,
            r is Err ==> r == Err::<(), DbErr>(DbErr::CannotWriteDbWithoutTransaction)
                && *final(self) == *old(self),
            final(self).same_meta(*old(self)),
            final(self).spec_file() == old(self).spec_file(),
            r is Ok ==> final(self).page_view(page.page_id) == Some(page.data@),
            r is Ok ==> final(self).cached(page.page_id) == Some(page.data@),
            r is Ok ==> final(self).same_pages_except(*old(self), page.page_id),
    {
        let ghost before = *self;
        proof {
            self.journal_manager.lemma_layers_len(0);
        }
        match self.journal_manager.append_raw_page(page) {
            Ok(()) => {},
            Err(e) => {
                assert(self.journal_manager == before.journal_manager);
                assert(*self == before);
                return Err(e);
            },
        }
        self.page_cache.insert_to_cache(page);
        proof {
            assert forall|pid: u32| #[trigger] self.page_cache.cached(pid) is Some implies self.page_cache.cached(pid)
                == self.page_view(pid) by {
                if pid != page.page_id {
                    assert(before.page_cache.cached(pid) == before.page_view(pid));
                }
            }
        }
        Ok(())
    }

    /// Reads page `pid`: from the cache, else the journal, else the main
    /// file; a page read from the journal or the file enters the cache.
    pub fn pipeline_read_page(&mut self, page_id: u32) -> (r: Result<RawPage, DbErr>)
        requires
            old(self).wf(),
        ensures
            final(self).same_committed(*old(self)),
            final(self).wf(),
            final(self).same_meta(*old(self)),
            final(self).same_pages(*old(self)),
            final(self).spec_file() == old(self).spec_file(),
            old(self).page_view(page_id) is None <==> r is Err,
            r is Err ==> r == Err::<RawPage, DbErr>(DbErr::CorruptStore),
            r matches Ok(p) ==> p.page_id == page_id && old(self).page_view(page_id) == Some(p.data@),
    {
        // the file's length is a usize: a page that ends past usize::MAX is
        // past its end
        let _file_len: usize = self.file.len();
        if let Some(page) = self.page_cache.get_from_cache(page_id) {
            return Ok(page);
        }
        let ghost before = *self;
        if let Some(page) = self.journal_manager.read_page(page_id) {
            self.page_cache.insert_to_cache(&page);
            proof {
                assert forall|pid: u32| #[trigger] self.page_cache.cached(pid) is Some implies self.page_cache.cached(pid)
                    == self.page_view(pid) by {
                    if pid != page_id {
                        assert(before.page_cache.cached(pid) == before.page_view(pid));
                    }
                }
            }
            return Ok(page);
        }
        if !fits_in_file(page_id, self.page_size) {
            return Err(DbErr::CorruptStore);
        }
        let off: usize = ((page_id as u64) * (self.page_size as u64)) as usize;
        let end: usize = off + (self.page_size as usize);
        if end > self.file.len() {
            return Err(DbErr::CorruptStore);
        }
        let result = RawPage { page_id, data: copy_range(&self.file, off, end) };
        self.page_cache.insert_to_cache(&result);
        proof {
            assert forall|pid: u32| #[trigger] self.page_cache.cached(pid) is Some implies self.page_cache.cached(pid)
                == self.page_view(pid) by {
                if pid != page_id {
                    assert(before.page_cache.cached(pid) == before.page_view(pid));
                }
            }
        }
        Ok(result)
    }

    pub fn get_first_page(&mut self) -> (r: Result<RawPage, DbErr>)
        requires
            old(self).wf(),
        ensures
            final(self).same_committed(*old(self)),
            final(self).wf(),
            final(self).same_meta(*old(self)),
            final(self).same_pages(*old(self)),
            final(self).spec_file() == old(self).spec_file(),
            r matches Ok(p) && p.page_id == 0 && p.data@ == old(self).header(),
    {
        proof {
            self.lemma_wf();
        }
        self.pipeline_read_page(0)
    }

    /// Pops the newest entry of the header's free list, if there is one.
    fn try_get_free_page_id(&mut self) -> (r: Result<Option<u32>, DbErr>)
        requires
            old(self).wf(),
            old(self).can_write(),
        ensures
            final(self).same_committed(*old(self)),
            final(self).wf(),
            final(self).same_meta(*old(self)),
            final(self).same_pages_except(*old(self), 0),
            final(self).spec_file() == old(self).spec_file(),
            r is Ok,
            free_list_of(old(self).header()).len() == 0 ==> r == Ok::<Option<u32>, DbErr>(None)
                && final(self).same_pages(*old(self)),
            free_list_of(old(self).header()).len() > 0 ==> {
                &&& r matches Ok(Some(pid))
                &&& pid == free_list_of(old(self).header()).last()
                &&& free_list_of(final(self).header()) == free_list_of(old(self).header()).drop_last()
                &&& null_page_bar_of(final(self).header()) == null_page_bar_of(old(self).header())
                &&& free_list_page_id_of(final(self).header()) == free_list_page_id_of(old(self).header())
            },
    {
        proof {
            self.lemma_wf();
        }
        let first_page = match self.get_first_page() {
            Ok(p) => p,
            Err(e) => {
                return Err(e);
            },
        };
        let ghost h = first_page.data@;
        let mut wrapper = HeaderPageWrapper::from_raw_page(first_page);
        let free_list_size = wrapper.get_free_list_size();
        if free_list_size == 0 {
            return Ok(None);
        }
        let result = wrapper.get_free_list_content(free_list_size - 1);
        wrapper.set_free_list_size(free_list_size - 1);
        proof {
            let t = wrapper.0.data@;
            lemma_u32_kept(h, t, 4, 4, 0);
            lemma_u32_kept(h, t, 4, 4, 8);
            assert forall|i: int| 0 <= i < free_list_size_of(t) implies #[trigger] free_list_entry_of(t, i)
                == free_list_entry_of(h, i) by {
                lemma_u32_kept(h, t, 4, 4, 12 + 4 * i);
            }
            assert(free_list_of(t) =~= free_list_of(h).drop_last());
            assert(header_valid(t));
        }
        match self.pipeline_write_page(&wrapper.0) {
            Ok(()) => {},
            Err(e) => {
                return Err(e);
            },
        }
        Ok(Some(result))
    }

    /// Takes the next id past the water mark and raises the mark. Where the
    /// mark reaches the committed file size, the logical size grows by
    /// `DB_INIT_BLOCK_COUNT` pages.
    fn actual_alloc_page_id(&mut self) -> (r: Result<u32, DbErr>)
        requires
            old(self).wf(),
            old(self).can_write(),
            null_page_bar_of(old(self).header()) < u32::MAX,
        ensures
            final(self).same_committed(*old(self)),
            final(self).wf(),
            final(self).same_core(*old(self)),
            final(self).spec_page_count() == old(self).spec_page_count(),
            final(self).same_pages_except(*old(self), 0),
            final(self).spec_file() == old(self).spec_file(),
            r matches Ok(pid) && pid == null_page_bar_of(old(self).header()),
            final(self).spec_last_commit_db_size() == grown_size(
                old(self).spec_last_commit_db_size(),
                null_page_bar_of(old(self).header()) + 1,
                old(self).spec_page_size(),
            ),
            null_page_bar_of(final(self).header()) == null_page_bar_of(old(self).header()) + 1,
            free_list_of(final(self).header()) == free_list_of(old(self).header()),
            free_list_page_id_of(final(self).header()) == free_list_page_id_of(old(self).header()),
    {
        proof {
            self.lemma_wf();
        }
        let first_page = match self.get_first_page() {
            Ok(p) => p,
            Err(e) => {
                return Err(e);
            },
        };
        let ghost h = first_page.data@;
        let mut wrapper = HeaderPageWrapper::from_raw_page(first_page);
        let null_page_bar = wrapper.get_null_page_bar();
        wrapper.set_null_page_bar(null_page_bar + 1);
        proof {
            let t = wrapper.0.data@;
            lemma_u32_kept(h, t, 0, 4, 4);
            lemma_u32_kept(h, t, 0, 4, 8);
            assert forall|i: int| 0 <= i < free_list_size_of(t) implies #[trigger] free_list_entry_of(t, i)
                == free_list_entry_of(h, i) by {
                lemma_u32_kept(h, t, 0, 4, 12 + 4 * i);
            }
            assert(free_list_of(t) =~= free_list_of(h));
            assert(header_valid(t));
        }
        let ghost mid = *self;
        if (null_page_bar as u64) + 1 >= self.last_commit_db_size {
            assert(DB_INIT_BLOCK_COUNT == 16);
            let grow = 16u64 * (self.page_size as u64);
            if self.last_commit_db_size <= u64::MAX - grow {
                self.last_commit_db_size = self.last_commit_db_size + grow;
            } else {
                self.last_commit_db_size = u64::MAX;
            }
        }
        assert(self.same_pages(mid));
        assert(self.same_committed(mid));
        match self.pipeline_write_page(&wrapper.0) {
            Ok(()) => {},
            Err(e) => {
                return Err(e);
            },
        }
        Ok(null_page_bar)
    }

    /// A page id for a fresh page: the newest freed one, else the next one
    /// past the water mark. The id is never 0 and lies under the mark.
    pub fn alloc_page_id(&mut self) -> (r: Result<u32, DbErr>)
        requires
            old(self).wf(),
        ensures
            final(self).same_committed(*old(self)),
            final(self).wf(),
            final(self).same_core(*old(self)),
            final(self).spec_file() == old(self).spec_file(),
            !old(self).can_write() ==> r == Err::<u32, DbErr>(DbErr::CannotWriteDbWithoutTransaction),
            old(self).can_write() && old(self).spec_page_count() == u32::MAX ==> r == Err::<u32, DbErr>(
                DbErr::InvariantViolation,
            ),
            old(self).can_write() && old(self).spec_page_count() < u32::MAX && free_list_of(
                old(self).header(),
            ).len() == 0 && null_page_bar_of(old(self).header()) == u32::MAX ==> r == Err::<
                u32,
                DbErr,
            >(DbErr::PageSpaceExhausted),
            old(self).can_alloc() ==> r is Ok,
            r is Err ==> final(self).same_meta(*old(self)) && final(self).same_pages(*old(self)),
            r matches Ok(pid) ==> alloc_effect(*old(self), *final(self), pid)
                && final(self).same_pages_except(*old(self), 0),
    {
        proof {
            self.lemma_wf();
        }
        if self.journal_manager.transaction_type() != Some(TransactionType::Write) {
            return Err(DbErr::CannotWriteDbWithoutTransaction);
        }
        if self.page_count == u32::MAX {
            return Err(DbErr::InvariantViolation);
        }
        let ghost before = *self;
        let header = self.get_first_page();
        let header = match header {
            Ok(p) => p,
            Err(e) => {
                return Err(e);
            },
        };
        let wrapper = HeaderPageWrapper::from_raw_page(header);
        if wrapper.get_free_list_size() == 0 && wrapper.get_null_page_bar() == u32::MAX {
            return Err(DbErr::PageSpaceExhausted);
        }
        let page_id = match self.try_get_free_page_id() {
            Ok(Some(pid)) => pid,
            Ok(None) => match self.actual_alloc_page_id() {
                Ok(pid) => pid,
                Err(e) => {
                    return Err(e);
                },
            },
            Err(e) => {
                return Err(e);
            },
        };
        proof {
            let h = before.header();
            assert(self.same_pages_except(before, 0));
            assert(self.spec_page_count() == before.spec_page_count());
            if free_list_of(h).len() > 0 {
                assert(free_list_of(h)[free_list_of(h).len() - 1] == page_id);
                assert(0 < free_list_entry_of(h, free_list_size_of(h) - 1) < null_page_bar_of(h));
            }
        }
        let ghost mid = *self;
        self.page_count = self.page_count + 1;
        proof {
            assert(self.same_pages(mid));
            assert(self.same_committed(mid));
            assert(self.header() == mid.header());
            let h = before.header();
            assert(0 < page_id);
            assert(page_id < null_page_bar_of(self.header()));
            assert(free_list_page_id_of(self.header()) == free_list_page_id_of(h));
        }
        Ok(page_id)
    }

    /// Appends `pages` to the header's free list, in order.
    pub fn free_pages(&mut self, pages: &[u32]) -> (r: Result<(), DbErr>)
        requires
            old(self).wf(),
        ensures
            final(self).same_committed(*old(self)),
            final(self).wf(),
            final(self).same_core(*old(self)),
            final(self).spec_file() == old(self).spec_file(),
            final(self).same_pages_except(*old(self), 0),
            free_list_page_id_of(old(self).header()) != 0 || free_list_size_of(old(self).header())
                + pages@.len() >= HEADER_FREE_LIST_MAX_SIZE ==> r == Err::<(), DbErr>(
                DbErr::NotImplemented,
            ),
            !old(self).can_write() && free_list_page_id_of(old(self).header()) == 0
                && free_list_size_of(old(self).header()) + pages@.len() < HEADER_FREE_LIST_MAX_SIZE
                ==> r == Err::<(), DbErr>(DbErr::CannotWriteDbWithoutTransaction),
            old(self).can_write() && free_list_page_id_of(old(self).header()) == 0
                && free_list_size_of(old(self).header()) + pages@.len() < HEADER_FREE_LIST_MAX_SIZE
                && (pages@.len() >= old(self).spec_page_count() || exists|i: int|
                0 <= i < pages@.len() && (pages@[i] == 0 || pages@[i] >= null_page_bar_of(
                    old(self).header(),
                ))) ==> r == Err::<(), DbErr>(DbErr::InvariantViolation),
            old(self).can_write() && free_list_page_id_of(old(self).header()) == 0
                && free_list_size_of(old(self).header()) + pages@.len() < HEADER_FREE_LIST_MAX_SIZE
                && pages@.len() < old(self).spec_page_count() && (forall|i: int|
                0 <= i < pages@.len() ==> 0 < #[trigger] pages@[i] < null_page_bar_of(
                    old(self).header(),
                )) ==> r is Ok,
            r is Err ==> final(self).same_meta(*old(self)) && final(self).same_pages(*old(self)),
            r is Ok ==> {
                &&& free_list_of(final(self).header()) == free_list_of(old(self).header()) + pages@.map_values(
                    |p: u32| p as int,
                )
                &&& null_page_bar_of(final(self).header()) == null_page_bar_of(old(self).header())
                &&& free_list_page_id_of(final(self).header()) == 0
                &&& final(self).spec_page_count() == old(self).spec_page_count() - pages@.len()
                &&& final(self).spec_last_commit_db_size() == old(self).spec_last_commit_db_size()
            },
    {
        proof {
            self.lemma_wf();
        }
        let first_page = match self.get_first_page() {
            Ok(p) => p,
            Err(e) => {
                return Err(e);
            },
        };
        let ghost h = first_page.data@;
        let mut wrapper = HeaderPageWrapper::from_raw_page(first_page);
        if wrapper.get_free_list_page_id() != 0 {
            return Err(DbErr::NotImplemented);
        }
        let current_size = wrapper.get_free_list_size();
        if pages.len() >= HEADER_FREE_LIST_MAX_SIZE - (current_size as usize) {
            return Err(DbErr::NotImplemented);
        }
        if self.journal_manager.transaction_type() != Some(TransactionType::Write) {
            return Err(DbErr::CannotWriteDbWithoutTransaction);
        }
        if pages.len() >= self.page_count as usize {
            return Err(DbErr::InvariantViolation);
        }
        let bar = wrapper.get_null_page_bar();
        if !ids_below(pages, bar) {
            return Err(DbErr::InvariantViolation);
        }
        let n = pages.len() as u32;
        wrapper.set_free_list_size(current_size + n);
        proof {
            let t = wrapper.0.data@;
            lemma_u32_kept(h, t, 4, 4, 0);
            lemma_u32_kept(h, t, 4, 4, 8);
            assert forall|i: int| 0 <= i < HEADER_FREE_LIST_MAX_SIZE implies #[trigger] free_list_entry_of(t, i)
                == free_list_entry_of(h, i) by {
                lemma_u32_kept(h, t, 4, 4, 12 + 4 * i);
            }
        }
        let mut i: u32 = 0;
        while i < n
            invariant
                header_sized(wrapper.0.data@),
                wrapper.0.page_id == 0,
                wrapper.0.data@.len() == h.len(),
                n == pages@.len(),
                current_size + n < HEADER_FREE_LIST_MAX_SIZE,
                current_size == free_list_size_of(h),
                i <= n,
                null_page_bar_of(wrapper.0.data@) == bar,
                bar == null_page_bar_of(h),
                free_list_page_id_of(wrapper.0.data@) == 0,
                free_list_size_of(wrapper.0.data@) == current_size + n,
                forall|j: int| 0 <= j < current_size ==> #[trigger] free_list_entry_of(wrapper.0.data@, j)
                    == free_list_entry_of(h, j),
                forall|j: int| 0 <= j < i ==> #[trigger] free_list_entry_of(wrapper.0.data@, current_size + j)
                    == pages@[j],
                forall|j: int| 0 <= j < n ==> 0 < #[trigger] pages@[j] < bar,
            decreases n - i,
        {
            let ghost s0 = wrapper.0.data@;
            wrapper.set_free_list_content(current_size + i, pages[i as usize]);
            proof {
                let t = wrapper.0.data@;
                let at = 12 + 4 * (current_size + i);
                lemma_u32_kept(s0, t, at, 4, 0);
                lemma_u32_kept(s0, t, at, 4, 4);
                lemma_u32_kept(s0, t, at, 4, 8);
                assert forall|j: int| 0 <= j < current_size implies #[trigger] free_list_entry_of(t, j)
                    == free_list_entry_of(h, j) by {
                    assert(free_list_entry_of(s0, j) == free_list_entry_of(h, j));
                    lemma_u32_kept(s0, t, at, 4, 12 + 4 * j);
                }
                assert forall|j: int| 0 <= j < i + 1 implies #[trigger] free_list_entry_of(t, current_size + j)
                    == pages@[j] by {
                    if j < i {
                        assert(free_list_entry_of(s0, current_size + j) == pages@[j]);
                        lemma_u32_kept(s0, t, at, 4, 12 + 4 * (current_size + j));
                    }
                }
            }
            i = i + 1;
        }
        proof {
            let t = wrapper.0.data@;
            let added = pages@.map_values(|p: u32| p as int);
            assert forall|j: int| 0 <= j < free_list_size_of(t) implies 0 < #[trigger] free_list_entry_of(t, j)
                < null_page_bar_of(t) by {
                if j >= current_size {
                    assert(free_list_entry_of(t, current_size + (j - current_size)) == pages@[j - current_size]);
                }
            }
            assert(header_valid(t));
            assert forall|j: int| 0 <= j < free_list_of(t).len() implies #[trigger] free_list_of(t)[j]
                == (free_list_of(h) + added)[j] by {
                if j >= current_size {
                    assert(free_list_entry_of(t, current_size + (j - current_size)) == pages@[j - current_size]);
                }
            }
            assert(free_list_of(t) =~= free_list_of(h) + added);
        }
        match self.pipeline_write_page(&wrapper.0) {
            Ok(()) => {},
            Err(e) => {
                return Err(e);
            },
        }
        let ghost mid = *self;
        self.page_count = self.page_count - n;
        assert(self.same_pages(mid));
        assert(self.same_committed(mid));
        Ok(())
    }

    pub fn free_page(&mut self, pid: u32) -> (r: Result<(), DbErr>)
        requires
            old(self).wf(),
        ensures
            final(self).same_committed(*old(self)),
            final(self).wf(),
            final(self).same_core(*old(self)),
            final(self).spec_file() == old(self).spec_file(),
            final(self).same_pages_except(*old(self), 0),
            free_list_page_id_of(old(self).header()) != 0 || free_list_size_of(old(self).header()) + 1
                >= HEADER_FREE_LIST_MAX_SIZE ==> r == Err::<(), DbErr>(DbErr::NotImplemented),
            !old(self).can_write() && free_list_page_id_of(old(self).header()) == 0
                && free_list_size_of(old(self).header()) + 1 < HEADER_FREE_LIST_MAX_SIZE ==> r == Err::<
                (),
                DbErr,
            >(DbErr::CannotWriteDbWithoutTransaction),
            old(self).can_write() && free_list_page_id_of(old(self).header()) == 0
                && free_list_size_of(old(self).header()) + 1 < HEADER_FREE_LIST_MAX_SIZE && (old(
                self,
            ).spec_page_count() <= 1 || pid == 0 || pid >= null_page_bar_of(old(self).header()))
                ==> r == Err::<(), DbErr>(DbErr::InvariantViolation),
            r is Err ==> final(self).same_meta(*old(self)) && final(self).same_pages(*old(self)),
            r is Ok ==> {
                &&& final(self).spec_last_commit_db_size() == old(self).spec_last_commit_db_size()
                &&& free_list_of(final(self).header()) == free_list_of(old(self).header()).push(pid as int)
                &&& free_list_page_id_of(final(self).header()) == 0
                &&& null_page_bar_of(final(self).header()) == null_page_bar_of(old(self).header())
                &&& final(self).spec_page_count() == old(self).spec_page_count() - 1
            },
            old(self).can_write() && free_list_page_id_of(old(self).header()) == 0
                && free_list_size_of(old(self).header()) + 1 < HEADER_FREE_LIST_MAX_SIZE
                && old(self).spec_page_count() > 1 && 0 < pid < null_page_bar_of(old(self).header())
                ==> r is Ok,
    {
        let mut v: Vec<u32> = Vec::new();
        v.push(pid);
        let r = self.free_pages(v.as_slice());
        proof {
            assert(v@[0] == pid);
            assert(v@.map_values(|p: u32| p as int) =~= seq![pid as int]);
            assert(free_list_of(old(self).header()).push(pid as int) =~= free_list_of(old(self).header()) + seq![pid as int]);
        }
        r
    }

    /// What a read of `pid` would return once the open transaction is
    /// dropped: the last committed version, else the main file's.
    pub closed spec fn committed_view(&self, pid: u32) -> Option<Seq<u8>> {
        match self.journal_manager.committed_page(pid) {
            Some(d) => Some(d),
            None => file_page(self.file@, pid, self.page_size),
        }
    }

    pub fn start_transaction(&mut self, ty: TransactionType) -> (r: Result<(), DbErr>)
        requires
            old(self).wf(),
        ensures
            final(self).spec_page_size() == old(self).spec_page_size(),
            final(self).wf(),
            final(self).spec_file() == old(self).spec_file(),
            final(self).same_pages(*old(self)),
            forall|pid: u32| #[trigger] final(self).committed_view(pid) == old(self).committed_view(pid),
            forall|pid: u32| #[trigger] final(self).cached(pid) == old(self).cached(pid),
            final(self).spec_state() == old(self).spec_state(),
            final(self).spec_map() == old(self).spec_map(),
            final(self).spec_page_count() == old(self).spec_page_count(),
            old(self).spec_transaction_type() is Some <==> r == Err::<(), DbErr>(
                DbErr::StartTransactionInAnotherTransaction,
            ),
            r is Ok ==> final(self).spec_transaction_type() == Some(ty),
            r is Err ==> r == Err::<(), DbErr>(DbErr::StartTransactionInAnotherTransaction),
            r is Ok ==> forall|pid: u32| #[trigger] final(self).committed_view(pid) == final(self).page_view(pid),
            r is Err ==> final(self).spec_transaction_type() == old(self).spec_transaction_type(),
    {
        proof {
            if old(self).spec_transaction_type() is None {
                old(self).lemma_idle_reads_committed();
            }
        }
        self.journal_manager.start_transaction(ty)
    }

    pub fn transaction_type(&self) -> (r: Option<TransactionType>)
        ensures
            r == self.spec_transaction_type(),
    {
        self.journal_manager.transaction_type()
    }

    fn upgrade_read_transaction_to_write(&mut self) -> (r: Result<(), DbErr>)
        requires
            old(self).wf(),
            old(self).spec_transaction_type() is Some,
        ensures
            final(self).spec_page_size() == old(self).spec_page_size(),
            final(self).wf(),
            final(self).spec_file() == old(self).spec_file(),
            final(self).same_pages(*old(self)),
            final(self).spec_state() == old(self).spec_state(),
            final(self).spec_map() == old(self).spec_map(),
            final(self).spec_page_count() == old(self).spec_page_count(),
            r is Ok,
            final(self).spec_transaction_type() == Some(TransactionType::Write),
    {
        self.journal_manager.upgrade_read_transaction_to_write()
    }

    pub fn set_transaction_state(&mut self, state: TransactionState)
        requires
            old(self).wf(),
        ensures
            final(self).spec_page_size() == old(self).spec_page_size(),
            final(self).wf(),
            final(self).spec_state() == state,
            final(self).spec_file() == old(self).spec_file(),
            final(self).same_pages(*old(self)),
            final(self).spec_transaction_type() == old(self).spec_transaction_type(),
            final(self).spec_map() == old(self).spec_map(),
            final(self).spec_page_count() == old(self).spec_page_count(),
    {
        self.transaction_state = state;
    }

    /// Whether the journal holds `JOURNAL_FULL_SIZE` writes or more.
    pub fn is_journal_full(&self) -> (r: bool)
        ensures
            r == (self.spec_journal_len() >= JOURNAL_FULL_SIZE),
    {
        self.journal_manager.len() >= JOURNAL_FULL_SIZE
    }

    /// Moves the committed writes into the main file. Every page that could
    /// be read before reads the same after.
    pub fn checkpoint_journal(&mut self) -> (r: Result<(), DbErr>)
        requires
            old(self).wf(),
        ensures
            final(self).wf(),
            final(self).same_meta(*old(self)),
            r is Ok <==> old(self).checkpoint_fits(),
            r is Err ==> r == Err::<(), DbErr>(DbErr::IoError) && final(self).same_pages(*old(self))
                && final(self).spec_journal_len() == old(self).spec_journal_len(),
            r is Ok ==> final(self).spec_journal_len() == old(self).spec_journal_pending_len(),
            final(self).spec_journal_pending_len() == old(self).spec_journal_pending_len(),
            r is Ok && old(self).no_pending() ==> final(self).journal_empty(),
            old(self).no_pending() ==> final(self).no_pending(),
            forall|pid: u32|
                #[trigger] old(self).page_view(pid) is Some ==> final(self).page_view(pid) == old(
                    self,
                ).page_view(pid),
            forall|pid: u32|
                #[trigger] old(self).committed_view(pid) is Some ==> final(self).committed_view(pid)
                    == old(self).committed_view(pid),
    {
        proof {
            self.lemma_wf();
        }
        let ghost before = *self;
        let r = self.journal_manager.checkpoint_journal(&mut self.file);
        proof {
            if r is Ok {
                assert forall|pid: u32| #[trigger] self.page_cache.cached(pid) is Some implies self.page_cache.cached(pid)
                    == self.page_view(pid) by {
                    assert(before.page_cache.cached(pid) == before.page_view(pid));
                }
                assert(file_page(self.file@, 0, self.page_size) matches Some(h) && header_valid(h));
            }
        }
        r
    }

    /// Commits the open transaction; a full journal is then checkpointed.
    pub fn commit(&mut self) -> (r: Result<(), DbErr>)
        requires
            old(self).wf(),
        ensures
            final(self).wf(),
            final(self).spec_state() == old(self).spec_state(),
            final(self).spec_map() == old(self).spec_map(),
            final(self).spec_page_count() == old(self).spec_page_count(),
            old(self).spec_transaction_type() is None <==> r == Err::<(), DbErr>(
                DbErr::NoTransactionStarted,
            ),
            old(self).spec_transaction_type() is Some && r is Err ==> r == Err::<(), DbErr>(
                DbErr::IoError,
            ),
            old(self).spec_transaction_type() is None ==> *final(self) == *old(self),
            old(self).spec_transaction_type() is Some ==> final(self).spec_transaction_type() is None,
            old(self).spec_transaction_type() is Some ==> final(self).no_pending(),
            final(self).spec_page_size() == old(self).spec_page_size(),
            r is Ok && old(self).spec_journal_len() >= JOURNAL_FULL_SIZE ==> final(self).spec_journal_len()
                == 0,
            r is Ok && old(self).spec_journal_len() < JOURNAL_FULL_SIZE ==> final(self).spec_journal_len()
                == old(self).spec_journal_len(),
            forall|pid: u32|
                #[trigger] old(self).page_view(pid) is Some ==> final(self).page_view(pid) == old(
                    self,
                ).page_view(pid),
            old(self).spec_transaction_type() is Some ==> forall|pid: u32|
                #[trigger] old(self).page_view(pid) is Some ==> final(self).committed_view(pid)
                    == old(self).page_view(pid),
    {
        proof {
            self.lemma_wf();
        }
        let ghost before = *self;
        match self.journal_manager.commit() {
            Ok(()) => {},
            Err(e) => {
                return Err(e);
            },
        }
        proof {
            assert forall|pid: u32| #[trigger] self.page_cache.cached(pid) is Some implies self.page_cache.cached(pid)
                == self.page_view(pid) by {
                assert(before.page_cache.cached(pid) == before.page_view(pid));
            }
            assert forall|pid: u32| #[trigger] self.page_view(pid) == before.page_view(pid) by {}
        }
        let ghost mid = *self;
        let mut r: Result<(), DbErr> = Ok(());
        if self.is_journal_full() {
            r = self.checkpoint_journal();
        }
        proof {
            assert forall|pid: u32| #[trigger] before.page_view(pid) is Some implies self.page_view(pid)
                == before.page_view(pid) by {
                assert(mid.page_view(pid) == before.page_view(pid));
            }
            assert forall|pid: u32| #[trigger] before.page_view(pid) is Some implies self.committed_view(pid)
                == before.page_view(pid) by {
                assert(mid.page_view(pid) == before.page_view(pid));
                assert(mid.committed_view(pid) == mid.page_view(pid));
            }
        }
        r
    }

    /// Drops the open transaction's writes and starts the cache afresh: no
    /// page read before may be served from it.
    pub fn rollback(&mut self) -> (r: Result<(), DbErr>)
        requires
            old(self).wf(),
        ensures
            final(self).spec_page_size() == old(self).spec_page_size(),
            final(self).wf(),
            final(self).spec_file() == old(self).spec_file(),
            final(self).spec_state() == old(self).spec_state(),
            final(self).spec_map() == old(self).spec_map(),
            final(self).spec_page_count() == old(self).spec_page_count(),
            old(self).spec_transaction_type() is None <==> r == Err::<(), DbErr>(
                DbErr::NoTransactionStarted,
            ),
            old(self).spec_transaction_type() is None ==> *final(self) == *old(self),
            r is Err ==> r == Err::<(), DbErr>(DbErr::NoTransactionStarted),
            r is Ok ==> final(self).spec_transaction_type() is None,
            r is Ok ==> forall|pid: u32| #[trigger] final(self).cached(pid) is None,
            r is Ok ==> forall|pid: u32| #[trigger] final(self).page_view(pid) == old(self).committed_view(pid),
            forall|pid: u32| #[trigger] final(self).committed_view(pid) == old(self).committed_view(pid),
    {
        match self.journal_manager.rollback() {
            Ok(()) => {},
            Err(e) => {
                return Err(e);
            },
        }
        self.page_cache = PageCache::new_default(self.page_size);
        Ok(())
    }

    /// Starts a transaction of type `ty` for a single call when none is
    /// under way; in a user session begun for reading, a write upgrades the
    /// journal's transaction.
    pub fn auto_start_transaction(&mut self, ty: TransactionType) -> (r: Result<AutoStartResult, DbErr>)
        requires
            old(self).wf(),
        ensures
            final(self).spec_page_size() == old(self).spec_page_size(),
            final(self).wf(),
            final(self).spec_file() == old(self).spec_file(),
            final(self).same_pages(*old(self)),
            final(self).spec_map() == old(self).spec_map(),
            final(self).spec_page_count() == old(self).spec_page_count(),
            old(self).spec_state() == TransactionState::NoTrans ==> {
                if old(self).spec_transaction_type() is None {
                    &&& r == Ok::<AutoStartResult, DbErr>(AutoStartResult { auto_start: true })
                    &&& final(self).spec_state() == TransactionState::DbAuto
                    &&& final(self).spec_transaction_type() == Some(ty)
                } else {
                    &&& r == Err::<AutoStartResult, DbErr>(DbErr::StartTransactionInAnotherTransaction)
                    &&& final(self).spec_state() == old(self).spec_state()
                    &&& final(self).spec_transaction_type() == old(self).spec_transaction_type()
                }
            },
            old(self).spec_state() == TransactionState::UserAuto && ty == TransactionType::Write
                && old(self).spec_transaction_type() == Some(TransactionType::Read) ==> {
                &&& r == Ok::<AutoStartResult, DbErr>(AutoStartResult { auto_start: false })
                &&& final(self).spec_state() == TransactionState::UserAuto
                &&& final(self).spec_transaction_type() == Some(TransactionType::Write)
            },
            old(self).spec_state() != TransactionState::NoTrans && !(old(self).spec_state()
                == TransactionState::UserAuto && ty == TransactionType::Write
                && old(self).spec_transaction_type() == Some(TransactionType::Read)) ==> {
                &&& r == Ok::<AutoStartResult, DbErr>(AutoStartResult { auto_start: false })
                &&& final(self).spec_state() == old(self).spec_state()
                &&& final(self).spec_transaction_type() == old(self).spec_transaction_type()
            },
    {
        let mut result = AutoStartResult { auto_start: false };
        match self.transaction_state {
            TransactionState::NoTrans => {
                match self.start_transaction(ty) {
                    Ok(()) => {},
                    Err(e) => {
                        return Err(e);
                    },
                }
                let ghost mid = *self;
                self.transaction_state = TransactionState::DbAuto;
                assert(self.same_pages(mid));
                result.auto_start = true;
            },
            TransactionState::UserAuto => {
                match (ty, self.transaction_type()) {
                    (TransactionType::Write, Some(TransactionType::Read)) => {
                        match self.upgrade_read_transaction_to_write() {
                            Ok(()) => {},
                            Err(e) => {
                                return Err(e);
                            },
                        }
                    },
                    _ => {},
                }
            },
            _ => {},
        }
        Ok(result)
    }

    /// Rolls back a transaction that `auto_start_transaction` began.
    pub fn auto_rollback(&mut self) -> (r: Result<(), DbErr>)
        requires
            old(self).wf(),
        ensures
            final(self).spec_page_size() == old(self).spec_page_size(),
            final(self).wf(),
            final(self).spec_map() == old(self).spec_map(),
            final(self).spec_page_count() == old(self).spec_page_count(),
            old(self).spec_state() != TransactionState::DbAuto ==> r is Ok && *final(self) == *old(self),
            old(self).spec_state() == TransactionState::DbAuto && old(self).spec_transaction_type() is Some
                ==> {
                &&& r is Ok
                &&& final(self).spec_state() == TransactionState::NoTrans
                &&& final(self).spec_transaction_type() is None
                &&& forall|pid: u32| #[trigger] final(self).cached(pid) is None
                &&& forall|pid: u32| #[trigger] final(self).page_view(pid) == old(self).committed_view(pid)
            },
            old(self).spec_state() == TransactionState::DbAuto && old(self).spec_transaction_type() is None
                ==> r == Err::<(), DbErr>(DbErr::NoTransactionStarted) && *final(self) == *old(self),
    {
        if self.transaction_state == TransactionState::DbAuto {
            match self.rollback() {
                Ok(()) => {},
                Err(e) => {
                    return Err(e);
                },
            }
            let ghost mid = *self;
            self.transaction_state = TransactionState::NoTrans;
            assert(self.same_pages(mid));
            assert(forall|pid: u32| #[trigger] self.cached(pid) == mid.cached(pid));
        }
        Ok(())
    }

    /// Commits a transaction that `auto_start_transaction` began.
    pub fn auto_commit(&mut self) -> (r: Result<(), DbErr>)
        requires
            old(self).wf(),
        ensures
            final(self).spec_page_size() == old(self).spec_page_size(),
            final(self).wf(),
            final(self).spec_map() == old(self).spec_map(),
            final(self).spec_page_count() == old(self).spec_page_count(),
            old(self).spec_state() != TransactionState::DbAuto ==> r is Ok && *final(self) == *old(self),
            old(self).spec_state() == TransactionState::DbAuto && old(self).spec_transaction_type() is Some
                ==> {
                &&& r is Ok || r == Err::<(), DbErr>(DbErr::IoError)
                &&& r is Ok ==> final(self).spec_state() == TransactionState::NoTrans
                &&& final(self).spec_transaction_type() is None
                &&& final(self).no_pending()
                &&& forall|pid: u32|
                    #[trigger] old(self).page_view(pid) is Some ==> final(self).committed_view(pid)
                        == old(self).page_view(pid)
                &&& forall|pid: u32|
                    #[trigger] old(self).page_view(pid) is Some ==> final(self).page_view(pid) == old(
                        self,
                    ).page_view(pid)
            },
            old(self).spec_state() == TransactionState::DbAuto && old(self).spec_transaction_type() is None
                ==> r == Err::<(), DbErr>(DbErr::NoTransactionStarted) && *final(self) == *old(self),
    {
        if self.transaction_state == TransactionState::DbAuto {
            match self.commit() {
                Ok(()) => {},
                Err(e) => {
                    return Err(e);
                },
            }
            let ghost mid = *self;
            self.transaction_state = TransactionState::NoTrans;
            assert(self.same_pages(mid));
        }
        Ok(())
    }

    /// A data page with room for `data_size` more bytes: the best fit among
    /// the indexed pages, else a fresh page. An indexed page that no longer
    /// reads back as a sound page with that much room and at least one
    /// record is passed over.
    pub fn distribute_data_page_wrapper(&mut self, data_size: u32) -> (r: Result<DataPageWrapper, DbErr>)
        requires
            old(self).wf(),
        ensures
            final(self).same_committed(*old(self)),
            final(self).wf(),
            final(self).same_session(*old(self)),
            final(self).spec_file() == old(self).spec_file(),
            final(self).same_pages_except(*old(self), 0),
            !old(self).fits_empty_page(data_size as int) ==> r == Err::<DataPageWrapper, DbErr>(
                DbErr::DataSizeTooLarge,
            ),
            old(self).fits_empty_page(data_size as int) && old(self).can_alloc() ==> r is Ok,
            old(self).fits_empty_page(data_size as int) && !old(self).can_write() && r is Err ==> r
                == Err::<DataPageWrapper, DbErr>(DbErr::CannotWriteDbWithoutTransaction),
            old(self).fits_empty_page(data_size as int) && (forall|k: u32|
                k >= data_size + 2 ==> #[trigger] old(self).spec_map().bucket(k).len() == 0) ==> {
                &&& final(self).spec_map() == old(self).spec_map()
                &&& r matches Ok(w) ==> slots_of(w.bytes()) == Seq::<Option<Seq<u8>>>::empty()
            },
            old(self).fits_empty_page(data_size as int) && (exists|k: u32|
                k >= data_size + 2 && #[trigger] old(self).spec_map().bucket(k).len() > 0) ==> exists|
                key: u32,
            |
                #![trigger best_fit_key(old(self).spec_map(), data_size + 2, key)]
                best_fit_key(old(self).spec_map(), data_size + 2, key) && taken_from(
                    final(self).spec_map(),
                    old(self).spec_map(),
                    key,
                ) && (r matches Ok(w) ==> (w.spec_page().page_id == old(self).spec_map().bucket(
                    key,
                ).last() && final(self).page_view(w.spec_page().page_id) == Some(w.bytes()))
                    || slots_of(w.bytes()) == Seq::<Option<Seq<u8>>>::empty()),
            r matches Ok(w) ==> !no_live_slot(w.bytes()) ==> {
                &&& final(self).header() == old(self).header()
                &&& final(self).spec_page_count() == old(self).spec_page_count()
                &&& final(self).spec_last_commit_db_size() == old(self).spec_last_commit_db_size()
                &&& old(self).page_view(w.spec_page().page_id) == Some(w.bytes())
                &&& exists|key: u32|
                    #![trigger best_fit_key(old(self).spec_map(), data_size + 2, key)]
                    best_fit_key(old(self).spec_map(), data_size + 2, key)
                        && w.spec_page().page_id == old(self).spec_map().bucket(key).last()
            },
            r matches Ok(w) ==> no_live_slot(w.bytes()) ==> alloc_effect(
                *old(self),
                *final(self),
                w.spec_page().page_id,
            ),
            old(self).fits_empty_page(data_size as int) ==> forall|key: u32|
                #![trigger best_fit_key(old(self).spec_map(), data_size + 2, key)]
                best_fit_key(old(self).spec_map(), data_size + 2, key) && candidate_ok(
                    *old(self),
                    old(self).spec_map().bucket(key).last(),
                    data_size + 2,
                ) ==> (r matches Ok(w) && w.spec_page().page_id == old(self).spec_map().bucket(
                    key,
                ).last() && w.bytes() == old(self).page_view(w.spec_page().page_id)->Some_0),
            r matches Ok(w) ==> {
                &&& w.spec_page().page_id != 0
                &&& w.spec_page().page_id < null_page_bar_of(final(self).header())
                &&& w.bytes().len() == final(self).spec_page_size()
                &&& data_page_valid(w.bytes())
                &&& data_size + 2 <= remain_of(w.bytes())
                &&& ((final(self).page_view(w.spec_page().page_id) == Some(w.bytes()) && !no_live_slot(
                    w.bytes(),
                )) || slots_of(w.bytes()) == Seq::<Option<Seq<u8>>>::empty())
            },
    {
        proof {
            self.lemma_wf();
        }
        if data_size > self.page_size - 8 {
            return Err(DbErr::DataSizeTooLarge);
        }
        let need = data_size + 2;
        let ghost before = *self;
        let taken = self.data_page_map.take_best_fit(need);
        let ghost m1 = self.data_page_map;
        proof {
            if let Some((key, _p)) = taken {
                assert(best_fit_key(before.data_page_map, need as int, key));
            }
        }
        if let Some((_key, pid)) = taken {
            assert(self.same_pages(before));
            proof {
                self.lemma_wf();
            }
            let bar = match self.get_first_page() {
                Ok(p) => HeaderPageWrapper::from_raw_page(p).get_null_page_bar(),
                Err(_) => 0,
            };
            // an index entry may outlive its page after a rollback
            if pid != 0 && pid < bar {
                match self.pipeline_read_page(pid) {
                    Ok(raw) => {
                        let wrapper = DataPageWrapper::from_raw(raw);
                        // a page enters the index only right after a record went into
                        // it, so one without records has been freed since
                        if wrapper.borrow_page().data.len() == self.page_size as usize && wrapper.is_valid()
                            && wrapper.remain_size() >= need && !wrapper.is_empty() {
                            return Ok(wrapper);
                        }
                    },
                    Err(_) => {},
                }
            }
        }
        assert(self.same_pages(before));
        assert(self.data_page_map == m1);
        proof {
            self.lemma_wf();
            assert(self.header() == before.header());
        }
        self.force_distribute_new_data_page_wrapper()
    }

    /// An empty data page under a freshly allocated id.
    fn force_distribute_new_data_page_wrapper(&mut self) -> (r: Result<DataPageWrapper, DbErr>)
        requires
            old(self).wf(),
        ensures
            final(self).same_committed(*old(self)),
            final(self).wf(),
            final(self).same_session(*old(self)),
            final(self).spec_file() == old(self).spec_file(),
            final(self).same_pages_except(*old(self), 0),
            old(self).can_alloc() ==> r is Ok,
            !old(self).can_write() ==> r == Err::<DataPageWrapper, DbErr>(
                DbErr::CannotWriteDbWithoutTransaction,
            ),
            final(self).spec_map() == old(self).spec_map(),
            r matches Ok(w) ==> alloc_effect(*old(self), *final(self), w.spec_page().page_id),
            r is Err ==> final(self).same_meta(*old(self)) && final(self).same_pages(*old(self)),
            r matches Ok(w) ==> {
                &&& w.spec_page().page_id != 0
                &&& w.spec_page().page_id < null_page_bar_of(final(self).header())
                &&& w.bytes().len() == final(self).spec_page_size()
                &&& data_page_valid(w.bytes())
                &&& remain_of(w.bytes()) == final(self).spec_page_size() - dir_end(0) - 2
                &&& slots_of(w.bytes()) == Seq::<Option<Seq<u8>>>::empty()
            },
    {
        let new_pid = match self.alloc_page_id() {
            Ok(p) => p,
            Err(e) => {
                return Err(e);
            },
        };
        proof {
            self.lemma_wf();
        }
        Ok(DataPageWrapper::init(new_pid, self.page_size))
    }

    /// Offers `wrapper`'s page for later records, filed under its free
    /// bytes, when it has at least `PRESERVE_WRAPPER_MIN_REMAIN_SIZE` of
    /// them and fewer than half of `u16::MAX` slots.
    pub fn return_data_page_wrapper(&mut self, wrapper: DataPageWrapper)
        requires
            old(self).wf(),
            wrapper.bytes().len() >= 4,
        ensures
            final(self).same_committed(*old(self)),
            final(self).wf(),
            final(self).same_session(*old(self)),
            final(self).spec_file() == old(self).spec_file(),
            final(self).same_pages(*old(self)),
            final(self).spec_page_count() == old(self).spec_page_count(),
            final(self).spec_last_commit_db_size() == old(self).spec_last_commit_db_size(),
            if remain_of(wrapper.bytes()) >= PRESERVE_WRAPPER_MIN_REMAIN_SIZE && slot_count_of(
                wrapper.bytes(),
            ) < 0xffffint / 2 {
                &&& final(self).spec_map().bucket(remain_of(wrapper.bytes()) as u32) == old(
                    self,
                ).spec_map().bucket(remain_of(wrapper.bytes()) as u32).push(wrapper.spec_page().page_id)
                &&& forall|k: u32|
                    k != remain_of(wrapper.bytes()) ==> #[trigger] final(self).spec_map().bucket(k)
                        == old(self).spec_map().bucket(k)
            } else {
                final(self).spec_map() == old(self).spec_map()
            },
    {
        let remain_size = wrapper.remain_size();
        if remain_size < PRESERVE_WRAPPER_MIN_REMAIN_SIZE {
            return;
        }
        if wrapper.bar_len() >= (0xffffu32) / 2 {
            return;
        }
        let ghost before = *self;
        self.data_page_map.insert(remain_size, wrapper.pid());
        assert(self.same_pages(before));
    }

    /// Stores `bytes` as a new record and returns the ticket that names it.
    pub fn store_bytes(&mut self, bytes: &Vec<u8>) -> (r: Result<DataTicket, DbErr>)
        requires
            old(self).wf(),
        ensures
            final(self).same_committed(*old(self)),
            final(self).wf(),
            final(self).same_session(*old(self)),
            !old(self).fits_empty_page(bytes@.len() as int) ==> r == Err::<DataTicket, DbErr>(
                DbErr::DataSizeTooLarge,
            ),
            old(self).fits_empty_page(bytes@.len() as int) && old(self).can_alloc() ==> r is Ok,
            old(self).fits_empty_page(bytes@.len() as int) && old(self).can_write() ==> forall|key: u32|
                #![trigger best_fit_key(old(self).spec_map(), bytes@.len() as int + 2, key)]
                best_fit_key(old(self).spec_map(), bytes@.len() as int + 2, key) && candidate_ok(
                    *old(self),
                    old(self).spec_map().bucket(key).last(),
                    bytes@.len() as int + 2,
                ) ==> (r matches Ok(t) && t.pid == old(self).spec_map().bucket(key).last()),
            old(self).fits_empty_page(bytes@.len() as int) && !old(self).can_write() ==> r == Err::<
                DataTicket,
                DbErr,
            >(DbErr::CannotWriteDbWithoutTransaction),
            r matches Ok(t) ==> {
                &&& t.pid != 0
                &&& t.pid < null_page_bar_of(final(self).header())
                &&& final(self).page_view(t.pid) is Some
                &&& data_page_valid(final(self).page_view(t.pid)->Some_0)
                &&& ((old(self).page_view(t.pid) matches Some(d) && !no_live_slot(d) && t.index
                    == slots_of(d).len() && slots_of(final(self).page_view(t.pid)->Some_0) == slots_of(
                    d,
                ).push(Some(bytes@)) && final(self).header() == old(self).header()
                    && final(self).spec_page_count() == old(self).spec_page_count()
                    && final(self).spec_last_commit_db_size() == old(self).spec_last_commit_db_size()
                    && exists|key: u32|
                    #![trigger best_fit_key(old(self).spec_map(), bytes@.len() as int + 2, key)]
                    best_fit_key(old(self).spec_map(), bytes@.len() as int + 2, key) && t.pid == old(
                        self,
                    ).spec_map().bucket(key).last()) || (t.index == 0 && slots_of(
                    final(self).page_view(t.pid)->Some_0,
                ) == seq![Some(bytes@)] && alloc_effect(*old(self), *final(self), t.pid)))
                &&& (forall|k: u32|
                    k >= bytes@.len() as int + 2 ==> #[trigger] old(self).spec_map().bucket(k).len() == 0)
                    ==> filed_after(
                    final(self).spec_map(),
                    old(self).spec_map(),
                    final(self).page_view(t.pid)->Some_0,
                    t.pid,
                )
                &&& (exists|k: u32|
                    k >= bytes@.len() as int + 2 && #[trigger] old(self).spec_map().bucket(k).len() > 0)
                    ==> exists|key: u32, m: FreeBucketMap|
                    #![trigger best_fit_key(old(self).spec_map(), bytes@.len() as int + 2, key), taken_from(m, old(self).spec_map(), key)]
                    best_fit_key(old(self).spec_map(), bytes@.len() as int + 2, key) && taken_from(
                        m,
                        old(self).spec_map(),
                        key,
                    ) && filed_after(
                        final(self).spec_map(),
                        m,
                        final(self).page_view(t.pid)->Some_0,
                        t.pid,
                    )
                &&& final(self).ticket_content(t) == Some(bytes@)
                &&& forall|q: u32| q != 0 && q != t.pid ==> #[trigger] final(self).page_view(q) == old(
                    self,
                ).page_view(q)
            },
    {
        proof {
            self.lemma_wf();
        }
        if bytes.len() > (self.page_size - 8) as usize {
            return Err(DbErr::DataSizeTooLarge);
        }
        let ghost before = *self;
        let mut wrapper = match self.distribute_data_page_wrapper(bytes.len() as u32) {
            Ok(w) => w,
            Err(e) => {
                return Err(e);
            },
        };
        let ghost mid = *self;
        let index = wrapper.bar_len() as u16;
        let pid = wrapper.pid();
        let ghost old_slots = slots_of(wrapper.bytes());
        let ghost old_bytes = wrapper.bytes();
        wrapper.put(bytes);
        proof {
            self.lemma_wf();
            assert(index as int == slot_count_of(old_bytes));
            assert(old_slots.len() == slot_count_of(old_bytes));
            assert(slots_of(wrapper.bytes()).len() == old_slots.len() + 1);
            assert(slot_count_of(wrapper.bytes()) == index + 1);
            assert(slots_of(wrapper.bytes())[index as int] == Some(bytes@));
            assert(slot_of(wrapper.bytes(), index as int) == Some(bytes@));
        }
        let ghost wrapper_bytes = wrapper.bytes();
        let r = self.pipeline_write_page(wrapper.borrow_page());
        match r {
            Ok(()) => {},
            Err(e) => {
                return Err(e);
            },
        }
        let ghost mid2 = *self;
        self.return_data_page_wrapper(wrapper);
        proof {
            assert(self.page_view(pid) == mid2.page_view(pid));
            assert(self.header() == mid2.header());
            assert(mid2.header() == mid.header());
            assert(mid2.spec_map() == mid.spec_map());
            assert(self.page_view(pid) == Some(wrapper_bytes));
            assert(filed_after(self.spec_map(), mid.spec_map(), wrapper_bytes, pid));
            assert(self.spec_page_count() == mid.spec_page_count());
            assert(self.spec_last_commit_db_size() == mid.spec_last_commit_db_size());
            if no_live_slot(old_bytes) {
                assert(alloc_effect(before, mid, pid));
                assert(slots_of(wrapper_bytes) =~= seq![Some(bytes@)]);
                assert(alloc_effect(before, *self, pid));
            } else {
                assert(before.page_view(pid) == Some(old_bytes));
                assert(index as int == slots_of(old_bytes).len());
                assert(self.header() == before.header());
            }
            if exists|k: u32| k >= bytes@.len() as int + 2 && #[trigger] before.spec_map().bucket(k).len() > 0 {
                let key = choose|key: u32|
                    #![trigger best_fit_key(before.spec_map(), bytes@.len() as int + 2, key)]
                    best_fit_key(before.spec_map(), bytes@.len() as int + 2, key) && taken_from(
                        mid.spec_map(),
                        before.spec_map(),
                        key,
                    );
                assert(taken_from(mid.spec_map(), before.spec_map(), key));
                assert(filed_after(self.spec_map(), mid.spec_map(), wrapper_bytes, pid));
            }
            if slots_of(old_bytes) == Seq::<Option<Seq<u8>>>::empty() {
                assert(slots_of(wrapper_bytes) =~= seq![Some(bytes@)]);
            } else {
                assert(before.page_view(pid) == mid.page_view(pid));
            }
            assert forall|q: u32| q != 0 && q != pid implies #[trigger] self.page_view(q) == before.page_view(q) by {
                assert(mid2.page_view(q) == mid.page_view(q));
                assert(mid.page_view(q) == before.page_view(q));
            }
        }
        Ok(DataTicket { pid, index })
    }

    /// The record that `t` names, if its slot still holds one.
    pub fn get_bytes_from_ticket(&mut self, data_ticket: &DataTicket) -> (r: Result<Option<Vec<u8>>, DbErr>)
        requires
            old(self).wf(),
        ensures
            final(self).same_committed(*old(self)),
            final(self).wf(),
            final(self).same_meta(*old(self)),
            final(self).same_pages(*old(self)),
            final(self).spec_file() == old(self).spec_file(),
            old(self).page_view(data_ticket.pid) is None <==> r is Err,
            r is Err ==> r == Err::<Option<Vec<u8>>, DbErr>(DbErr::CorruptStore),
            r matches Ok(o) ==> match o {
                Some(v) => old(self).ticket_content(*data_ticket) == Some(v@),
                None => old(self).ticket_content(*data_ticket) is None,
            },
    {
        let page = match self.pipeline_read_page(data_ticket.pid) {
            Ok(p) => p,
            Err(e) => {
                return Err(e);
            },
        };
        let wrapper = DataPageWrapper::from_raw(page);
        Ok(wrapper.get(data_ticket.index as u32))
    }

    /// Removes the record that `t` names and returns its bytes. A page left
    /// with no record goes back to the free list.
    pub fn free_data_ticket(&mut self, data_ticket: &DataTicket) -> (r: Result<Vec<u8>, DbErr>)
        requires
            old(self).wf(),
        ensures
            final(self).same_committed(*old(self)),
            final(self).wf(),
            final(self).same_session(*old(self)),
            data_ticket.pid == 0 || old(self).ticket_content(*data_ticket) is None ==> r is Err,
            old(self).can_write() && data_ticket.pid != 0 && old(self).ticket_content(*data_ticket) is Some
                && data_page_valid(old(self).page_view(data_ticket.pid)->Some_0)
                && (empties_on_free(old(self).page_view(data_ticket.pid)->Some_0, data_ticket.index as int)
                ==> free_list_page_id_of(old(self).header()) == 0 && free_list_size_of(old(self).header())
                + 1 < HEADER_FREE_LIST_MAX_SIZE && old(self).spec_page_count() > 1 && data_ticket.pid
                < null_page_bar_of(old(self).header())) ==> r is Ok,
            r matches Ok(b) ==> {
                &&& old(self).ticket_content(*data_ticket) == Some(b@)
                &&& final(self).ticket_content(*data_ticket) is None
                &&& final(self).page_view(data_ticket.pid) matches Some(d) && slots_of(d) == slots_of(
                    old(self).page_view(data_ticket.pid)->Some_0,
                ).update(data_ticket.index as int, None)
                &&& forall|q: u32|
                    q != 0 && q != data_ticket.pid ==> #[trigger] final(self).page_view(q) == old(
                        self,
                    ).page_view(q)
                &&& null_page_bar_of(final(self).header()) == null_page_bar_of(old(self).header())
                &&& (no_live_slot(final(self).page_view(data_ticket.pid)->Some_0) ==> final(self).spec_page_count() == old(self).spec_page_count() - 1)
                &&& (!no_live_slot(final(self).page_view(data_ticket.pid)->Some_0) ==> final(self).spec_page_count() == old(self).spec_page_count())
                &&& (no_live_slot(final(self).page_view(data_ticket.pid)->Some_0) ==> free_list_of(
                    final(self).header(),
                ) == free_list_of(old(self).header()).push(data_ticket.pid as int))
                &&& (!no_live_slot(final(self).page_view(data_ticket.pid)->Some_0) ==> free_list_of(
                    final(self).header(),
                ) == free_list_of(old(self).header()))
            },
    {
        proof {
            self.lemma_wf();
        }
        if data_ticket.pid == 0 {
            return Err(DbErr::NotFound);
        }
        let ghost before = *self;
        let page = match self.pipeline_read_page(data_ticket.pid) {
            Ok(p) => p,
            Err(e) => {
                return Err(e);
            },
        };
        let mut wrapper = DataPageWrapper::from_raw(page);
        let ghost pre_bytes = wrapper.bytes();
        if !wrapper.is_valid() {
            return Err(DbErr::CorruptStore);
        }
        let bytes = match wrapper.get(data_ticket.index as u32) {
            Some(b) => b,
            None => {
                return Err(DbErr::NotFound);
            },
        };
        wrapper.remove(data_ticket.index as u32);
        proof {
            assert(slots_of(wrapper.bytes())[data_ticket.index as int] == None::<Seq<u8>>);
            assert(slot_of(wrapper.bytes(), data_ticket.index as int) is None);
            assert(slot_count_of(pre_bytes) >= 0 && slot_count_of(wrapper.bytes()) >= 0);
            assert(slots_of(wrapper.bytes()).len() == slots_of(pre_bytes).len());
            assert(slot_count_of(wrapper.bytes()) == slot_count_of(pre_bytes));
            assert forall|i: int| 0 <= i < slot_count_of(pre_bytes) && i != data_ticket.index implies #[trigger] slot_of(
                wrapper.bytes(),
                i,
            ) == slot_of(pre_bytes, i) by {
                assert(slots_of(wrapper.bytes())[i] == slots_of(pre_bytes)[i]);
            }
            if no_live_slot(wrapper.bytes()) {
                assert forall|i: int| 0 <= i < slot_count_of(pre_bytes) && i != data_ticket.index implies #[trigger] slot_of(
                    pre_bytes,
                    i,
                ) is None by {
                    assert(slot_of(wrapper.bytes(), i) is None);
                }
            }
            if empties_on_free(pre_bytes, data_ticket.index as int) {
                assert forall|i: int| 0 <= i < slot_count_of(wrapper.bytes()) implies #[trigger] slot_of(
                    wrapper.bytes(),
                    i,
                ) is None by {
                    if i != data_ticket.index {
                        assert(slot_of(pre_bytes, i) is None);
                    }
                }
            }
            assert(no_live_slot(wrapper.bytes()) == empties_on_free(pre_bytes, data_ticket.index as int));
        }
        let ghost mid = *self;
        if wrapper.is_empty() {
            match self.free_page(data_ticket.pid) {
                Ok(()) => {},
                Err(e) => {
                    return Err(e);
                },
            }
        }
        let ghost mid2 = *self;
        proof {
            self.lemma_wf();
        }
        let page = wrapper.consume_page();
        match self.pipeline_write_page(&page) {
            Ok(()) => {},
            Err(e) => {
                return Err(e);
            },
        }
        proof {
            assert(self.header() == mid2.header());
            assert forall|q: u32| q != 0 && q != data_ticket.pid implies #[trigger] self.page_view(q) == before.page_view(q) by {
                assert(mid2.page_view(q) == mid.page_view(q));
                assert(mid.page_view(q) == before.page_view(q));
            }
            assert(slot_of(page.data@, data_ticket.index as int) is None);
        }
        Ok(bytes)
    }

    pub fn page_count(&self) -> (r: u32)
        ensures
            r == self.spec_page_count(),
    {
        self.page_count
    }

    /// The cached version of `pid`, if the cache holds one.
    pub fn get_from_cache(&self, pid: u32) -> (r: Option<RawPage>)
        ensures
            match r {
                Some(p) => p.page_id == pid && self.cached(pid) == Some(p.data@),
                None => self.cached(pid) is None,
            },
    {
        self.page_cache.get_from_cache(pid)
    }
}

} // verus!
