//! Properties that tie several operations of the page handler together.
use vstd::prelude::*;
use crate::handler::{PageHandler, DataTicket};
use crate::header::{free_list_of, null_page_bar_of};

verus! {

/// The header page always exists: a well-formed handler counts at least
/// one page.
pub proof fn lemma_page_count_positive(h: PageHandler)
    requires
        h.wf(),
    ensures
        h.spec_page_count() >= 1,
{
    h.lemma_wf();
}

/// Every id on the header's free list names a page other than the header
/// and lies under the water mark.
pub proof fn lemma_free_list_below_bar(h: PageHandler)
    requires
        h.wf(),
    ensures
        forall|i: int|
            0 <= i < free_list_of(h.header()).len() ==> 0 < #[trigger] free_list_of(h.header())[i]
                < null_page_bar_of(h.header()),
{
    h.lemma_wf();
}

/// The free list is a stack: ids appended by `free_pages` come back from
/// `alloc_page_id`, which takes the last entry each time, newest first.
pub proof fn lemma_free_list_lifo(list: Seq<int>, a: int, b: int, c: int)
    ensures
        ({
            let grown = list + seq![a, b, c];
            &&& grown.last() == c
            &&& grown.drop_last().last() == b
            &&& grown.drop_last().drop_last().last() == a
            &&& grown.drop_last().drop_last().drop_last() == list
        }),
{
    let grown = list + seq![a, b, c];
    assert(grown.drop_last() =~= list + seq![a, b]);
    assert(grown.drop_last().drop_last() =~= list + seq![a]);
    assert(grown.drop_last().drop_last().drop_last() =~= list);
}

/// Once committed writes are checkpointed and the journal is empty, the
/// main file alone carries every page: a handler opened over the same bytes
/// with the same page size reads every page, and so every ticket, the same.
pub proof fn lemma_reopen_reads_the_same(h: PageHandler, reopened: PageHandler)
    requires
        h.journal_empty(),
        reopened.journal_empty(),
        reopened.spec_file() == h.spec_file(),
        reopened.spec_page_size() == h.spec_page_size(),
    ensures
        forall|pid: u32| #[trigger] reopened.page_view(pid) == h.page_view(pid),
        forall|t: DataTicket| #[trigger] reopened.ticket_content(t) == h.ticket_content(t),
{
    assert forall|pid: u32| #[trigger] reopened.page_view(pid) == h.page_view(pid) by {
        h.lemma_reads_from_file(pid);
        reopened.lemma_reads_from_file(pid);
    }
    assert forall|t: DataTicket| #[trigger] reopened.ticket_content(t) == h.ticket_content(t) by {
        h.lemma_reads_from_file(t.pid);
        reopened.lemma_reads_from_file(t.pid);
    }
}

} // verus!
