//! Journal of page writes: writes of the open transaction, writes of
//! committed transactions not yet checkpointed, and the checkpoint that
//! moves them into the main file.
use vstd::prelude::*;
use crate::bytes::write_at;
use crate::error::DbErr;
use crate::page::{RawPage, latest, find_latest, lemma_latest_push};

verus! {

#[derive(Debug, Clone, Copy, PartialEq, Eq, Structural)]
pub enum TransactionType {
    Read,
    Write,
}

/// The version of page `pid` that the main file holds, if the file reaches
/// that far.
pub open spec fn file_page(file: Seq<u8>, pid: u32, page_size: u32) -> Option<Seq<u8>> {
    let off = pid as int * page_size as int;
    if off + page_size <= file.len() {
        Some(file.subrange(off, off + page_size))
    } else {
        None
    }
}

/// One past the last byte of page `pid` in the main file.
pub open spec fn page_end(pid: u32, page_size: u32) -> int {
    pid as int * page_size as int + page_size as int
}

/// Whether the main file can hold page `pid` at all.
pub fn fits_in_file(pid: u32, page_size: u32) -> (r: bool)
    ensures
        r == (page_end(pid, page_size) <= usize::MAX),
{
    assert(pid as int * page_size as int <= 0xffff_ffff * 0xffff_ffff) by (nonlinear_arith)
        requires
            pid <= 0xffff_ffff,
            page_size <= 0xffff_ffff,
    ;
    let off = (pid as u128) * (page_size as u128);
    off + (page_size as u128) <= usize::MAX as u128
}

/// The version of `pid` in the log `b` on top of the log `a`.
pub proof fn lemma_latest_concat(a: Seq<RawPage>, b: Seq<RawPage>, pid: u32)
    ensures
        latest(a + b, pid) == (match latest(b, pid) {
            Some(d) => Some(d),
            None => latest(a, pid),
        }),
    decreases b.len(),
{
    if b.len() == 0 {
        assert(a + b =~= a);
    } else {
        assert((a + b).drop_last() =~= a + b.drop_last());
        lemma_latest_concat(a, b.drop_last(), pid);
    }
}

proof fn lemma_pages_disjoint(q: int, p: int, ps: int)
    requires
        q != p,
        q >= 0,
        p >= 0,
        ps > 0,
    ensures
        q * ps + ps <= p * ps || p * ps + ps <= q * ps,
{
    if q < p {
        assert(q * ps + ps <= p * ps) by (nonlinear_arith)
            requires
                q + 1 <= p,
                ps > 0,
        ;
    } else {
        assert(p * ps + ps <= q * ps) by (nonlinear_arith)
            requires
                p + 1 <= q,
                ps > 0,
        ;
    }
}

/// Writes `page` at its place in the main file, growing the file with zero
/// bytes where it does not reach that far.
pub fn write_page_to_file(file: &mut Vec<u8>, page: &RawPage, page_size: u32)
    requires
        page_size > 0,
        page.data@.len() == page_size,
        page_end(page.page_id, page_size) <= usize::MAX,
    ensures
        final(file)@.len() == (if page_end(page.page_id, page_size) <= old(file)@.len() {
            old(file)@.len() as int
        } else {
            page_end(page.page_id, page_size)
        }),
        file_page(final(file)@, page.page_id, page_size) == Some(page.data@),
        forall|q: u32|
            #![trigger file_page(final(file)@, q, page_size)]
            q != page.page_id && file_page(old(file)@, q, page_size) is Some ==> file_page(
                final(file)@,
                q,
                page_size,
            ) == file_page(old(file)@, q, page_size),
{
    let ghost orig = file@;
    let off: usize = ((page.page_id as u64) * (page_size as u64)) as usize;
    let end: usize = off + (page_size as usize);
    while file.len() < end
        invariant
            file@.len() >= orig.len(),
            file@.len() <= (if orig.len() >= end { orig.len() as int } else { end as int }),
            file@.subrange(0, orig.len() as int) == orig,
        decreases end - file@.len(),
    {
        let ghost before = file@;
        file.push(0u8);
        assert(file@.subrange(0, orig.len() as int) =~= before.subrange(0, orig.len() as int));
    }
    let ghost grown = file@;
    write_at(file, off, &page.data);
    assert(file@.subrange(off as int, off + page_size) == page.data@);
    assert forall|q: u32|
        q != page.page_id && file_page(orig, q, page_size) is Some implies #[trigger] file_page(
            file@,
            q,
            page_size,
        ) == file_page(orig, q, page_size) by {
        let qo = q as int * page_size as int;
        lemma_pages_disjoint(q as int, page.page_id as int, page_size as int);
        assert forall|j: int| qo <= j < qo + page_size implies file@[j] == orig[j] by {
            assert(grown[j] == grown.subrange(0, orig.len() as int)[j]);
        }
        assert(file@.subrange(qo, qo + page_size) =~= orig.subrange(qo, qo + page_size));
    }
}

pub struct JournalManager {
    page_size: u32,
    committed: Vec<RawPage>,
    pending: Vec<RawPage>,
    tx: Option<TransactionType>,
}

impl JournalManager {
    pub closed spec fn spec_page_size(&self) -> u32 {
        self.page_size
    }

    /// The newest journaled version of `pid`: the open transaction's, else
    /// the last committed one.
    pub open spec fn journaled(&self, pid: u32) -> Option<Seq<u8>> {
        match self.pending_page(pid) {
            Some(d) => Some(d),
            None => self.committed_page(pid),
        }
    }

    pub closed spec fn spec_transaction_type(&self) -> Option<TransactionType> {
        self.tx
    }

    /// The open transaction's version of `pid`.
    pub closed spec fn pending_page(&self, pid: u32) -> Option<Seq<u8>> {
        latest(self.pending@, pid)
    }

    /// Both layers hold the same versions in `self` and `other`.
    pub open spec fn same_pages(&self, other: JournalManager) -> bool {
        forall|pid: u32|
            #![trigger self.pending_page(pid)]
            #![trigger self.committed_page(pid)]
            self.pending_page(pid) == other.pending_page(pid) && self.committed_page(pid)
                == other.committed_page(pid)
    }

    pub proof fn lemma_layers_len(&self, pid: u32)
        requires
            self.wf(),
        ensures
            self.pending_page(pid) matches Some(d) ==> d.len() == self.spec_page_size(),
            self.committed_page(pid) matches Some(d) ==> d.len() == self.spec_page_size(),
    {
        lemma_latest_len(self.pending@, pid, self.page_size);
        lemma_latest_len(self.committed@, pid, self.page_size);
    }

    /// The last committed, not yet checkpointed version of `pid`.
    pub closed spec fn committed_page(&self, pid: u32) -> Option<Seq<u8>> {
        latest(self.committed@, pid)
    }

    /// Whether a committed, not yet checkpointed write of `pid` exists.
    pub closed spec fn committed_has(&self, pid: u32) -> bool {
        exists|j: int| 0 <= j < self.committed@.len() && self.committed@[j].page_id == pid
    }

    pub open spec fn spec_len(&self) -> nat {
        self.spec_committed_len() + self.spec_pending_len()
    }

    /// Committed writes not yet checkpointed.
    pub closed spec fn spec_committed_len(&self) -> nat {
        self.committed@.len()
    }

    /// Writes of the open transaction.
    pub closed spec fn spec_pending_len(&self) -> nat {
        self.pending@.len()
    }

    /// Every journaled page is one page long.
    pub closed spec fn wf(&self) -> bool {
        &&& self.page_size > 0
        &&& forall|i: int|
            0 <= i < self.committed@.len() ==> #[trigger] self.committed@[i].data@.len()
                == self.page_size
        &&& forall|i: int|
            0 <= i < self.pending@.len() ==> #[trigger] self.pending@[i].data@.len()
                == self.page_size
    }

    pub proof fn lemma_journaled_len(&self, pid: u32)
        requires
            self.wf(),
        ensures
            self.journaled(pid) matches Some(d) ==> d.len() == self.spec_page_size(),
    {
        lemma_latest_len(self.pending@, pid, self.page_size);
        lemma_latest_len(self.committed@, pid, self.page_size);
    }

    pub fn open(page_size: u32) -> (r: JournalManager)
        requires
            page_size > 0,
        ensures
            r.wf(),
            r.spec_page_size() == page_size,
            r.spec_transaction_type() is None,
            r.spec_len() == 0,
            forall|pid: u32| #[trigger] r.pending_page(pid) is None,
            forall|pid: u32| #[trigger] r.committed_page(pid) is None,
    {
        JournalManager { page_size, committed: Vec::new(), pending: Vec::new(), tx: None }
    }

    /// The number of journaled writes, saturated at `usize::MAX`.
    pub fn len(&self) -> (r: usize)
        ensures
            r == (if self.spec_len() <= usize::MAX {
                self.spec_len()
            } else {
                usize::MAX as nat
            }),
    {
        let a = self.committed.len();
        let b = self.pending.len();
        if a > usize::MAX - b {
            usize::MAX
        } else {
            a + b
        }
    }

    pub fn transaction_type(&self) -> (r: Option<TransactionType>)
        ensures
            r == self.spec_transaction_type(),
    {
        self.tx
    }

    pub fn start_transaction(&mut self, ty: TransactionType) -> (r: Result<(), DbErr>)
        ensures
            old(self).spec_transaction_type() is Some <==> r == Err::<(), DbErr>(
                DbErr::StartTransactionInAnotherTransaction,
            ),
            r is Err ==> r == Err::<(), DbErr>(DbErr::StartTransactionInAnotherTransaction),
            r is Ok ==> final(self).spec_transaction_type() == Some(ty),
            r is Err ==> *final(self) == *old(self),
            final(self).spec_page_size() == old(self).spec_page_size(),
            final(self).spec_len() == old(self).spec_len(),
            old(self).wf() ==> final(self).wf(),
            final(self).same_pages(*old(self)),
    {
        if self.tx.is_some() {
            return Err(DbErr::StartTransactionInAnotherTransaction);
        }
        self.tx = Some(ty);
        Ok(())
    }

    /// Turns a read transaction into a write transaction; a write
    /// transaction stays as it is.
    pub fn upgrade_read_transaction_to_write(&mut self) -> (r: Result<(), DbErr>)
        ensures
            old(self).spec_transaction_type() is None <==> r == Err::<(), DbErr>(
                DbErr::NoTransactionStarted,
            ),
            r is Err ==> r == Err::<(), DbErr>(DbErr::NoTransactionStarted),
            r is Ok ==> final(self).spec_transaction_type() == Some(TransactionType::Write),
            r is Err ==> *final(self) == *old(self),
            final(self).spec_page_size() == old(self).spec_page_size(),
            final(self).spec_len() == old(self).spec_len(),
            old(self).wf() ==> final(self).wf(),
            final(self).same_pages(*old(self)),
    {
        if self.tx.is_none() {
            return Err(DbErr::NoTransactionStarted);
        }
        self.tx = Some(TransactionType::Write);
        Ok(())
    }

    /// Records `page` under the open write transaction.
    pub fn append_raw_page(&mut self, page: &RawPage) -> (r: Result<(), DbErr>)
        requires
            old(self).wf(),
            page.data@.len() == old(self).spec_page_size(),
        ensures
            old(self).spec_transaction_type() != Some(TransactionType::Write) <==> r == Err::<
                (),
                DbErr,
            >(DbErr::CannotWriteDbWithoutTransaction),
            r is Err ==> *final(self) == *old(self),
            r is Err ==> r == Err::<(), DbErr>(DbErr::CannotWriteDbWithoutTransaction),
            r is Ok ==> final(self).pending_page(page.page_id) == Some(page.data@),
            r is Ok ==> forall|pid: u32|
                #![trigger final(self).pending_page(pid)]
                pid != page.page_id ==> final(self).pending_page(pid) == old(self).pending_page(
                    pid,
                ),
            forall|pid: u32| #[trigger]
                final(self).committed_page(pid) == old(self).committed_page(pid),
            r is Ok ==> final(self).spec_len() == old(self).spec_len() + 1,
            final(self).wf(),
            final(self).spec_page_size() == old(self).spec_page_size(),
            final(self).spec_transaction_type() == old(self).spec_transaction_type(),
    {
        match self.tx {
            Some(TransactionType::Write) => {},
            _ => {
                return Err(DbErr::CannotWriteDbWithoutTransaction);
            },
        }
        let ghost before = self.pending@;
        self.pending.push(page.duplicate());
        proof {
            assert(before.push(self.pending@.last()) =~= self.pending@);
            assert forall|pid: u32| #[trigger] latest(self.pending@, pid) == (if pid
                == page.page_id {
                Some(page.data@)
            } else {
                latest(before, pid)
            }) by {
                lemma_latest_push(before, self.pending@.last(), pid);
            }
            assert forall|i: int|
                0 <= i < self.pending@.len() implies #[trigger] self.pending@[i].data@.len()
                == self.page_size by {
                if i < before.len() {
                    assert(self.pending@[i] == before[i]);
                }
            }
        }
        Ok(())
    }

    /// The newest journaled version of `pid`, if the journal has one.
    pub fn read_page(&self, pid: u32) -> (r: Option<RawPage>)
        ensures
            match r {
                Some(p) => p.page_id == pid && self.journaled(pid) == Some(p.data@),
                None => self.journaled(pid) is None,
            },
    {
        match find_latest(&self.pending, pid) {
            Some(p) => Some(p),
            None => find_latest(&self.committed, pid),
        }
    }

    /// Makes the open transaction's writes part of the committed log.
    pub fn commit(&mut self) -> (r: Result<(), DbErr>)
        requires
            old(self).wf(),
        ensures
            old(self).spec_transaction_type() is None <==> r == Err::<(), DbErr>(
                DbErr::NoTransactionStarted,
            ),
            r is Err ==> *final(self) == *old(self),
            r is Err ==> r == Err::<(), DbErr>(DbErr::NoTransactionStarted),
            r is Ok ==> final(self).spec_transaction_type() is None,
            final(self).wf(),
            final(self).spec_page_size() == old(self).spec_page_size(),
            final(self).spec_len() == old(self).spec_len(),
            r is Ok ==> forall|pid: u32| #[trigger] final(self).pending_page(pid) is None,
            r is Ok ==> final(self).spec_pending_len() == 0,
            r is Ok ==> forall|pid: u32| #[trigger]
                final(self).committed_page(pid) == old(self).journaled(pid),
    {
        if self.tx.is_none() {
            return Err(DbErr::NoTransactionStarted);
        }
        let ghost c = self.committed@;
        let ghost p = self.pending@;
        self.committed.append(&mut self.pending);
        self.tx = None;
        proof {
            assert forall|pid: u32| #[trigger] self.committed_page(pid) == old(self).journaled(
                pid,
            ) by {
                lemma_latest_concat(c, p, pid);
            }
            assert forall|i: int|
                0 <= i < self.committed@.len() implies #[trigger] self.committed@[i].data@.len()
                == self.page_size by {
                if i >= c.len() {
                    assert(self.committed@[i] == p[i - c.len()]);
                }
            }
        }
        Ok(())
    }

    /// Drops the open transaction's writes.
    pub fn rollback(&mut self) -> (r: Result<(), DbErr>)
        requires
            old(self).wf(),
        ensures
            old(self).spec_transaction_type() is None <==> r == Err::<(), DbErr>(
                DbErr::NoTransactionStarted,
            ),
            r is Err ==> *final(self) == *old(self),
            r is Err ==> r == Err::<(), DbErr>(DbErr::NoTransactionStarted),
            r is Ok ==> final(self).spec_transaction_type() is None,
            r is Ok ==> forall|pid: u32| #[trigger] final(self).pending_page(pid) is None,
            forall|pid: u32| #[trigger]
                final(self).committed_page(pid) == old(self).committed_page(pid),
            final(self).wf(),
            final(self).spec_page_size() == old(self).spec_page_size(),
    {
        if self.tx.is_none() {
            return Err(DbErr::NoTransactionStarted);
        }
        self.pending = Vec::new();
        self.tx = None;
        Ok(())
    }

    /// Applies the committed writes to `file` and empties the committed
    /// log. What a read sees does not change, where the file already held
    /// the page or the journal did.
    pub fn checkpoint_journal(&mut self, file: &mut Vec<u8>) -> (r: Result<(), DbErr>)
        requires
            old(self).wf(),
        ensures
            final(self).wf(),
            final(self).spec_page_size() == old(self).spec_page_size(),
            final(self).spec_transaction_type() == old(self).spec_transaction_type(),
            r is Err <==> exists|pid: u32|
                #![trigger old(self).committed_has(pid)]
                old(self).committed_has(pid) && page_end(pid, old(self).spec_page_size())
                    > usize::MAX,
            r is Err ==> r == Err::<(), DbErr>(DbErr::IoError) && *final(self) == *old(self)
                && final(file)@ == old(file)@,
            forall|pid: u32| #[trigger]
                final(self).pending_page(pid) == old(self).pending_page(pid),
            final(self).spec_pending_len() == old(self).spec_pending_len(),
            r is Ok ==> final(self).spec_committed_len() == 0,
            r is Ok ==> forall|pid: u32| #[trigger] final(self).committed_page(pid) is None,
            r is Ok ==> forall|pid: u32|
                #![trigger file_page(final(file)@, pid, final(self).spec_page_size())]
                (old(self).committed_page(pid) is Some || file_page(
                    old(file)@,
                    pid,
                    old(self).spec_page_size(),
                ) is Some) ==> file_page(final(file)@, pid, final(self).spec_page_size())
                    == match old(self).committed_page(pid) {
                    Some(d) => Some(d),
                    None => file_page(old(file)@, pid, old(self).spec_page_size()),
                },
    {
        let ps = self.page_size;
        let mut k: usize = 0;
        while k < self.committed.len()
            invariant
                *self == *old(self),
                self.wf(),
                ps == self.page_size,
                0 <= k <= self.committed@.len(),
                forall|j: int|
                    0 <= j < k ==> page_end(#[trigger] self.committed@[j].page_id, ps)
                        <= usize::MAX,
            decreases self.committed@.len() - k,
        {
            if !fits_in_file(self.committed[k].page_id, ps) {
                assert(self.committed_has(self.committed@[k as int].page_id));
                return Err(DbErr::IoError);
            }
            k = k + 1;
        }
        assert forall|pid: u32| #[trigger] self.committed_has(pid) implies page_end(pid, ps)
            <= usize::MAX by {
            let j = choose|j: int| 0 <= j < self.committed@.len() && self.committed@[j].page_id == pid;
            assert(page_end(self.committed@[j].page_id, ps) <= usize::MAX);
        }
        let ghost orig = file@;
        let mut i: usize = 0;
        while i < self.committed.len()
            invariant
                self.wf(),
                forall|j: int|
                    0 <= j < self.committed@.len() ==> page_end(
                        #[trigger] self.committed@[j].page_id,
                        ps,
                    ) <= usize::MAX,
                self.page_size == ps,
                0 <= i <= self.committed@.len(),
                forall|q: u32|
                    #![trigger file_page(file@, q, ps)]
                    (latest(self.committed@.subrange(0, i as int), q) is Some || file_page(
                        orig,
                        q,
                        ps,
                    ) is Some) ==> file_page(file@, q, ps) == match latest(
                        self.committed@.subrange(0, i as int),
                        q,
                    ) {
                        Some(d) => Some(d),
                        None => file_page(orig, q, ps),
                    },
            decreases self.committed@.len() - i,
        {
            write_page_to_file(file, &self.committed[i], ps);
            proof {
                let s = self.committed@.subrange(0, i as int);
                assert(self.committed@.subrange(0, i + 1) =~= s.push(self.committed@[i as int]));
                assert forall|q: u32| #[trigger]
                    latest(self.committed@.subrange(0, i + 1), q) == (if q
                        == self.committed@[i as int].page_id {
                        Some(self.committed@[i as int].data@)
                    } else {
                        latest(s, q)
                    }) by {
                    lemma_latest_push(s, self.committed@[i as int], q);
                }
            }
            i = i + 1;
        }
        assert(self.committed@.subrange(0, i as int) =~= self.committed@);
        self.committed = Vec::new();
        Ok(())
    }
}

proof fn lemma_latest_len(log: Seq<RawPage>, pid: u32, ps: u32)
    requires
        forall|i: int| 0 <= i < log.len() ==> #[trigger] log[i].data@.len() == ps,
    ensures
        latest(log, pid) matches Some(d) ==> d.len() == ps,
    decreases log.len(),
{
    if log.len() > 0 {
        lemma_latest_len(log.drop_last(), pid, ps);
    }
}

} // verus!
