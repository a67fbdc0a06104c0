use polodb_bson::{Document, Value};
use polodb_core::bucket::FreeBucketMap;
use polodb_core::data_page::DataPageWrapper;
use polodb_core::error::DbErr;
use polodb_core::handler::{AutoStartResult, DataTicket, PageHandler, TransactionState};
use polodb_core::header::HeaderPageWrapper;
use polodb_core::journal::TransactionType;
use polodb_core::page::RawPage;

fn alice() -> Document {
    let mut doc = Document::new_without_id();
    doc.insert("name".to_string(), Value::from("alice"));
    doc
}

fn fresh() -> PageHandler {
    PageHandler::new(Vec::new(), 4096).unwrap()
}

#[test]
fn fresh_open() {
    let mut h = fresh();
    assert_eq!(h.main_file().len(), 65536);
    assert_eq!(h.page_count(), 16);
    let header = HeaderPageWrapper::from_raw_page(h.get_first_page().unwrap());
    assert_eq!(header.get_null_page_bar(), 1);
    assert_eq!(header.get_free_list_size(), 0);
    assert_eq!(header.get_free_list_page_id(), 0);
}

#[test]
fn reopen_keeps_file() {
    let h = fresh();
    let file = h.main_file().clone();
    let h2 = PageHandler::new(file, 4096).unwrap();
    assert_eq!(h2.page_count(), 16);
    assert_eq!(h2.main_file().len(), 65536);
}

#[test]
fn open_rejects_bad_header() {
    let file = vec![0u8; 8192];
    assert!(matches!(PageHandler::new(file, 4096), Err(DbErr::CorruptStore)));
}

#[test]
fn store_and_retrieve() {
    let mut h = fresh();
    h.start_transaction(TransactionType::Write).unwrap();
    let doc = alice();
    let t = h.store_bytes(&doc.to_bytes().unwrap()).unwrap();
    assert_eq!(t, DataTicket { pid: 1, index: 0 });
    let bytes = h.get_bytes_from_ticket(&t).unwrap().unwrap();
    assert_eq!(bytes, doc.to_bytes().unwrap());
    let back = Document::from_bytes(&bytes).unwrap();
    assert_eq!(back.get("name").unwrap().unwrap_string(), "alice");
    h.commit().unwrap();
    h.checkpoint_journal().unwrap();

    let file = h.main_file().clone();
    let mut reopened = PageHandler::new(file, 4096).unwrap();
    let bytes = reopened.get_bytes_from_ticket(&t).unwrap().unwrap();
    assert_eq!(bytes, doc.to_bytes().unwrap());
}

#[test]
fn commit_then_reopen_resolves_every_ticket() {
    let mut h = fresh();
    h.start_transaction(TransactionType::Write).unwrap();
    let mut tickets = Vec::new();
    for i in 0..5u8 {
        let record = vec![i; 10 + i as usize];
        tickets.push((h.store_bytes(&record).unwrap(), record));
    }
    h.commit().unwrap();
    h.checkpoint_journal().unwrap();
    let mut reopened = PageHandler::new(h.main_file().clone(), 4096).unwrap();
    for (t, record) in tickets {
        assert_eq!(reopened.get_bytes_from_ticket(&t).unwrap(), Some(record));
    }
}

#[test]
fn free_and_reuse() {
    let mut h = fresh();
    h.start_transaction(TransactionType::Write).unwrap();
    let doc = alice();
    let t = h.store_bytes(&doc.to_bytes().unwrap()).unwrap();
    let freed = h.free_data_ticket(&t).unwrap();
    assert_eq!(freed, doc.to_bytes().unwrap());
    let header = HeaderPageWrapper::from_raw_page(h.get_first_page().unwrap());
    assert_eq!(header.get_free_list_size(), 1);
    assert_eq!(header.get_free_list_content(0), t.pid);
    assert_eq!(h.alloc_page_id().unwrap(), t.pid);
}

#[test]
fn store_then_free_then_get_is_empty() {
    let mut h = fresh();
    h.start_transaction(TransactionType::Write).unwrap();
    let a = h.store_bytes(&vec![1, 2, 3]).unwrap();
    let b = h.store_bytes(&vec![4, 5]).unwrap();
    assert_eq!(a.pid, b.pid);
    assert_eq!(b.index, 1);
    assert_eq!(h.free_data_ticket(&a).unwrap(), vec![1, 2, 3]);
    assert_eq!(h.get_bytes_from_ticket(&a).unwrap(), None);
    assert_eq!(h.get_bytes_from_ticket(&b).unwrap(), Some(vec![4, 5]));
    assert!(matches!(h.free_data_ticket(&a), Err(DbErr::NotFound)));
}

#[test]
fn rollback_discards_cache() {
    let mut h = fresh();
    h.start_transaction(TransactionType::Write).unwrap();
    let t = h.store_bytes(&vec![9; 20]).unwrap();
    assert!(h.get_from_cache(t.pid).is_some());
    h.rollback().unwrap();
    assert!(h.get_from_cache(t.pid).is_none());
    assert!(h.get_from_cache(0).is_none());
    assert_eq!(h.get_bytes_from_ticket(&t).unwrap(), None);
    assert_eq!(h.transaction_type(), None);
}

#[test]
fn best_fit_bucket() {
    let mut map = FreeBucketMap::new();
    map.insert(40, 1);
    map.insert(100, 2);
    map.insert(500, 3);
    assert_eq!(map.take_best_fit(82), Some((100, 2)));
    assert_eq!(map.take_best_fit(82), Some((500, 3)));
    assert_eq!(map.take_best_fit(82), None);
    assert_eq!(map.take_best_fit(10), Some((40, 1)));
}

#[test]
fn best_fit_takes_newest_of_bucket() {
    let mut map = FreeBucketMap::new();
    map.insert(64, 7);
    map.insert(64, 8);
    assert_eq!(map.take_best_fit(64), Some((64, 8)));
    assert_eq!(map.take_best_fit(64), Some((64, 7)));
    assert_eq!(map.take_best_fit(0), None);
}

#[test]
fn nearly_full_page_is_not_reindexed() {
    let mut h = fresh();
    h.start_transaction(TransactionType::Write).unwrap();
    // an empty 4096-byte page offers 4090 bytes; this leaves 10 after the record
    let big = vec![7u8; 4076];
    let t = h.store_bytes(&big).unwrap();
    let t2 = h.store_bytes(&vec![1u8; 8]).unwrap();
    assert_ne!(t.pid, t2.pid);
}

#[test]
fn reindexed_page_is_reused() {
    let mut h = fresh();
    h.start_transaction(TransactionType::Write).unwrap();
    let t = h.store_bytes(&vec![1u8; 100]).unwrap();
    let t2 = h.store_bytes(&vec![2u8; 100]).unwrap();
    assert_eq!(t.pid, t2.pid);
    assert_eq!(t2.index, 1);
}

#[test]
fn data_page_remain_size() {
    let mut w = DataPageWrapper::init(3, 4096);
    assert_eq!(w.remain_size(), 4090);
    assert_eq!(w.bar_len(), 0);
    assert!(w.is_empty());
    w.put(&vec![5u8; 10]);
    assert_eq!(w.remain_size(), 4076);
    assert_eq!(w.bar_len(), 1);
    assert_eq!(w.get(0), Some(vec![5u8; 10]));
    w.remove(0);
    assert_eq!(w.get(0), None);
    assert!(w.is_empty());
    assert_eq!(w.bar_len(), 1);
    assert_eq!(w.pid(), 3);
}

#[test]
fn auto_transaction_upgrade() {
    let mut h = fresh();
    h.set_transaction_state(TransactionState::UserAuto);
    h.start_transaction(TransactionType::Read).unwrap();
    let r = h.auto_start_transaction(TransactionType::Write).unwrap();
    assert_eq!(r, AutoStartResult { auto_start: false });
    assert_eq!(h.transaction_type(), Some(TransactionType::Write));
}

#[test]
fn auto_transaction_from_idle() {
    let mut h = fresh();
    let r = h.auto_start_transaction(TransactionType::Write).unwrap();
    assert_eq!(r, AutoStartResult { auto_start: true });
    let t = h.store_bytes(&vec![3u8; 4]).unwrap();
    h.auto_commit().unwrap();
    assert_eq!(h.transaction_type(), None);
    assert_eq!(h.get_bytes_from_ticket(&t).unwrap(), Some(vec![3u8; 4]));
    h.auto_rollback().unwrap();
}

#[test]
fn auto_rollback_drops_writes() {
    let mut h = fresh();
    h.auto_start_transaction(TransactionType::Write).unwrap();
    let t = h.store_bytes(&vec![3u8; 4]).unwrap();
    h.auto_rollback().unwrap();
    assert_eq!(h.transaction_type(), None);
    assert_eq!(h.get_bytes_from_ticket(&t).unwrap(), None);
}

#[test]
fn free_pages_then_alloc_is_lifo() {
    let mut h = fresh();
    h.start_transaction(TransactionType::Write).unwrap();
    let a = h.alloc_page_id().unwrap();
    let b = h.alloc_page_id().unwrap();
    let c = h.alloc_page_id().unwrap();
    assert_eq!((a, b, c), (1, 2, 3));
    assert_eq!(h.page_count(), 19);
    h.free_pages(&[a, b, c]).unwrap();
    assert_eq!(h.page_count(), 16);
    assert_eq!(h.alloc_page_id().unwrap(), c);
    assert_eq!(h.alloc_page_id().unwrap(), b);
    assert_eq!(h.alloc_page_id().unwrap(), a);
    assert_eq!(h.alloc_page_id().unwrap(), 4);
}

#[test]
fn alloc_raises_water_mark() {
    let mut h = fresh();
    h.start_transaction(TransactionType::Write).unwrap();
    let id = h.alloc_page_id().unwrap();
    let header = HeaderPageWrapper::from_raw_page(h.get_first_page().unwrap());
    assert!(id < header.get_null_page_bar());
    assert_eq!(header.get_null_page_bar(), 2);
}

#[test]
fn free_pages_rejects_bad_ids() {
    let mut h = fresh();
    h.start_transaction(TransactionType::Write).unwrap();
    assert!(matches!(h.free_pages(&[0]), Err(DbErr::InvariantViolation)));
    assert!(matches!(h.free_pages(&[5]), Err(DbErr::InvariantViolation)));
}

#[test]
fn free_list_overflow_is_not_implemented() {
    let mut h = fresh();
    h.start_transaction(TransactionType::Write).unwrap();
    let ids = vec![1u32; 300];
    assert!(matches!(h.free_pages(&ids), Err(DbErr::NotImplemented)));
}

#[test]
fn write_then_read_page() {
    let mut h = fresh();
    h.start_transaction(TransactionType::Write).unwrap();
    let mut page = RawPage::new(5, 4096);
    page.data[10] = 42;
    h.pipeline_write_page(&page).unwrap();
    let back = h.pipeline_read_page(5).unwrap();
    assert_eq!(back.page_id, 5);
    assert_eq!(back.data, page.data);
}

#[test]
fn read_past_end_is_corrupt() {
    let mut h = fresh();
    assert!(matches!(h.pipeline_read_page(100), Err(DbErr::CorruptStore)));
}

#[test]
fn write_needs_transaction() {
    let mut h = fresh();
    let page = RawPage::new(5, 4096);
    assert!(matches!(h.pipeline_write_page(&page), Err(DbErr::CannotWriteDbWithoutTransaction)));
    assert!(matches!(h.store_bytes(&vec![1]), Err(DbErr::CannotWriteDbWithoutTransaction)));
    assert!(h.get_from_cache(5).is_none());
}

#[test]
fn oversized_record_is_refused() {
    let mut h = fresh();
    h.start_transaction(TransactionType::Write).unwrap();
    assert!(matches!(h.store_bytes(&vec![0u8; 4089]), Err(DbErr::DataSizeTooLarge)));
    assert!(h.store_bytes(&vec![0u8; 4088]).is_ok());
}

#[test]
fn transaction_errors() {
    let mut h = fresh();
    assert!(matches!(h.commit(), Err(DbErr::NoTransactionStarted)));
    assert!(matches!(h.rollback(), Err(DbErr::NoTransactionStarted)));
    h.start_transaction(TransactionType::Read).unwrap();
    assert!(matches!(
        h.start_transaction(TransactionType::Write),
        Err(DbErr::StartTransactionInAnotherTransaction)
    ));
    assert!(!h.is_journal_full());
}

#[test]
fn commit_checkpoints_full_journal() {
    let mut h = fresh();
    h.start_transaction(TransactionType::Write).unwrap();
    let page = RawPage::new(3, 4096);
    for _ in 0..1000 {
        h.pipeline_write_page(&page).unwrap();
    }
    assert!(h.is_journal_full());
    h.commit().unwrap();
    assert!(!h.is_journal_full());
}

#[test]
fn freed_page_leaves_allocation_to_free_list() {
    let mut h = fresh();
    h.start_transaction(TransactionType::Write).unwrap();
    let a = h.store_bytes(&vec![1u8; 30]).unwrap();
    h.free_data_ticket(&a).unwrap();
    let b = h.store_bytes(&vec![2u8; 30]).unwrap();
    assert_eq!(b, DataTicket { pid: a.pid, index: 0 });
    assert_ne!(h.alloc_page_id().unwrap(), a.pid);
    assert_eq!(h.get_bytes_from_ticket(&b).unwrap(), Some(vec![2u8; 30]));
}

#[test]
fn free_list_overflow_checked_before_transaction() {
    let mut h = fresh();
    let ids = vec![1u32; 300];
    assert!(matches!(h.free_pages(&ids), Err(DbErr::NotImplemented)));
    assert!(matches!(h.free_pages(&[1]), Err(DbErr::CannotWriteDbWithoutTransaction)));
    assert!(matches!(h.free_page(1), Err(DbErr::CannotWriteDbWithoutTransaction)));
}

#[test]
fn allocation_keeps_logical_size_below_mark() {
    let mut h = fresh();
    h.start_transaction(TransactionType::Write).unwrap();
    assert_eq!(h.last_commit_db_size, 65536);
    h.alloc_page_id().unwrap();
    assert_eq!(h.last_commit_db_size, 65536);
}

#[test]
fn checkpoint_empties_committed_journal() {
    let mut h = fresh();
    h.start_transaction(TransactionType::Write).unwrap();
    let t = h.store_bytes(&vec![8u8; 12]).unwrap();
    h.commit().unwrap();
    h.checkpoint_journal().unwrap();
    h.start_transaction(TransactionType::Write).unwrap();
    h.store_bytes(&vec![9u8; 12]).unwrap();
    h.rollback().unwrap();
    assert_eq!(h.get_bytes_from_ticket(&t).unwrap(), Some(vec![8u8; 12]));
}

#[test]
fn best_fit_picks_smallest_sufficient_page() {
    let mut h = fresh();
    h.start_transaction(TransactionType::Write).unwrap();
    // an empty page offers 4090 bytes and each record costs 4 more
    let a = h.store_bytes(&vec![1u8; 4046]).unwrap();
    let b = h.store_bytes(&vec![2u8; 3986]).unwrap();
    let c = h.store_bytes(&vec![3u8; 3586]).unwrap();
    assert_eq!((a.pid, b.pid, c.pid), (1, 2, 3));
    let t = h.store_bytes(&vec![4u8; 80]).unwrap();
    assert_eq!(t, DataTicket { pid: 2, index: 1 });
    assert_eq!(h.get_bytes_from_ticket(&b).unwrap(), Some(vec![2u8; 3986]));
}

#[test]
fn fresh_store_then_rollback_is_not_found() {
    let mut h = fresh();
    h.start_transaction(TransactionType::Write).unwrap();
    let t = h.store_bytes(&vec![5u8; 20]).unwrap();
    assert_eq!(t, DataTicket { pid: 1, index: 0 });
    assert_eq!(h.page_count(), 17);
    let header = HeaderPageWrapper::from_raw_page(h.get_first_page().unwrap());
    assert_eq!(header.get_null_page_bar(), 2);
    h.rollback().unwrap();
    assert_eq!(h.get_bytes_from_ticket(&t).unwrap(), None);
}
