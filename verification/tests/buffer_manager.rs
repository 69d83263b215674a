use dotdb_core::storage_engine::buffer_manager::{BufferPool, BufferStats, ReplacementPolicy};
use dotdb_core::storage_engine::file_format::{
    free_list_page, next_free_page, page_from_image, page_image, page_offset, Page, PageId, PageType,
};
use dotdb_core::storage_engine::lib::{StorageConfig, StorageError, VersionId};

fn config(size: usize) -> StorageConfig {
    let mut c = StorageConfig::default();
    c.buffer_pool_size = size;
    c
}

/// Make room the way the disk-backed pool does: choose a victim, take its
/// page back if dirty, then drop it.
fn evict_one(pool: &mut BufferPool) -> Result<Option<PageId>, StorageError> {
    match pool.select_victim()? {
        Some(v) => {
            let _write_back = pool.victim_write_back(v);
            pool.drop_page(v);
            Ok(Some(v))
        }
        None => Ok(None),
    }
}

fn allocate(pool: &mut BufferPool, next_id: &mut u64) -> PageId {
    if pool.len() >= pool.capacity() {
        evict_one(pool).unwrap();
    }
    let page = Page::new(PageId(*next_id), PageType::Data, VersionId(1), 4096);
    *next_id += 1;
    pool.cache_page(page)
}

/// A read of a page the store does not have.
fn read_missing(pool: &mut BufferPool, id: PageId) -> Result<(), StorageError> {
    if pool.touch_page(id) {
        return Ok(());
    }
    if pool.check_load(id)? {
        evict_one(pool)?;
    }
    pool.begin_io(id);
    pool.end_io(id);
    Err(StorageError::PageNotFound(id.0))
}

#[test]
fn test_buffer_pool_basic() {
    let mut pool = BufferPool::new(&StorageConfig::default());
    let mut next = 1;
    let page_id = allocate(&mut pool, &mut next);
    assert!(pool.touch_page(page_id));
    assert_eq!(pool.get_buffer(page_id).unwrap().page().id, page_id);

    pool.pin_cached(page_id);
    pool.unpin_page(page_id).unwrap();

    assert!(pool.dirty_page_ids().is_empty());
}

#[test]
fn test_buffer_manager() {
    let mut pool = BufferPool::new(&StorageConfig::default());
    let mut next = 1;
    let page_id = allocate(&mut pool, &mut next);
    assert!(pool.touch_page(page_id));
    assert_eq!(pool.get_buffer(page_id).unwrap().page().id, page_id);

    pool.pin_cached(page_id);
    let new_data = vec![1, 2, 3, 4];
    pool.update_page_data(page_id, new_data.clone()).unwrap();
    pool.unpin_page(page_id).unwrap();

    assert!(pool.touch_page(page_id));
    assert_eq!(pool.get_buffer(page_id).unwrap().page().data, new_data);
    assert_eq!(pool.dirty_page_ids(), vec![page_id]);
}

#[test]
fn test_lru_replacement_policy() {
    let mut pool = BufferPool::new(&config(3));
    pool.set_policy(ReplacementPolicy::LRU);
    let mut next = 1;
    let page_ids: Vec<PageId> = (0..3).map(|_| allocate(&mut pool, &mut next)).collect();

    pool.touch_page(page_ids[1]);
    let _new_page_id = allocate(&mut pool, &mut next);

    assert!(pool.contains_page(page_ids[1]));
    assert!(!pool.contains_page(page_ids[0]));
}

#[test]
fn test_clock_replacement_policy() {
    let mut pool = BufferPool::new(&config(3));
    pool.set_policy(ReplacementPolicy::Clock);
    let mut next = 1;
    let page_ids: Vec<PageId> = (0..3).map(|_| allocate(&mut pool, &mut next)).collect();

    pool.touch_page(page_ids[1]);
    let _new_page_id = allocate(&mut pool, &mut next);

    assert!(pool.contains_page(page_ids[1]));
    assert!(!pool.contains_page(page_ids[0]));
}

#[test]
fn test_mru_replacement_policy() {
    let mut pool = BufferPool::new(&config(3));
    pool.set_policy(ReplacementPolicy::MRU);
    let mut next = 1;
    let page_ids: Vec<PageId> = (0..3).map(|_| allocate(&mut pool, &mut next)).collect();

    pool.touch_page(page_ids[1]);
    let _new_page_id = allocate(&mut pool, &mut next);

    assert!(!pool.contains_page(page_ids[1]));
    assert!(pool.contains_page(page_ids[0]));
}

#[test]
fn test_fifo_replacement_policy() {
    let mut pool = BufferPool::new(&config(3));
    pool.set_policy(ReplacementPolicy::FIFO);
    let mut next = 1;
    let page_ids: Vec<PageId> = (0..3).map(|_| allocate(&mut pool, &mut next)).collect();

    pool.touch_page(page_ids[1]);
    let _new_page_id = allocate(&mut pool, &mut next);

    assert!(!pool.contains_page(page_ids[0]));
    assert!(pool.contains_page(page_ids[1]));
}

#[test]
fn test_buffer_stats() {
    let mut pool = BufferPool::new(&StorageConfig::default());
    let mut next = 1;
    let page_id = allocate(&mut pool, &mut next);
    assert!(pool.touch_page(page_id));
    assert!(pool.touch_page(page_id));
    let miss_page_id = PageId(page_id.0 + 1);
    read_missing(&mut pool, miss_page_id).unwrap_err();

    let (stats, _cached, _capacity) = pool.get_stats();
    assert_eq!(stats.reads, 3);
    assert_eq!(stats.hits, 2);
    assert_eq!(stats.misses, 1);
}

#[test]
fn buffer_pool_full_when_all_pinned() {
    let mut pool = BufferPool::new(&config(2));
    let mut next = 1;
    let a = allocate(&mut pool, &mut next);
    let b = allocate(&mut pool, &mut next);
    pool.pin_cached(a);
    pool.pin_cached(b);
    assert!(matches!(pool.select_victim(), Err(StorageError::BufferPoolFull)));
    pool.unpin_page(b).unwrap();
    assert_eq!(evict_one(&mut pool).unwrap(), Some(b));
    assert!(matches!(pool.unpin_page(b), Err(StorageError::PageNotFound(_))));
    assert_eq!(pool.get_stats().0.evictions, 1);
}

#[test]
fn buffer_pool_flush_hands_out_dirty_pages() {
    let mut pool = BufferPool::new(&config(4));
    let mut next = 1;
    let a = allocate(&mut pool, &mut next);
    assert!(pool.begin_flush(a).unwrap().is_none());
    pool.update_page_data(a, vec![7; 10]).unwrap();
    let copy = pool.begin_flush(a).unwrap().unwrap();
    assert_eq!(copy.data, vec![7; 10]);
    assert!(copy.verify_checksum());
    assert!(pool.check_load(a).is_err());
    pool.end_flush(a, true);
    assert!(pool.dirty_page_ids().is_empty());
    assert_eq!(pool.get_stats().0.writes, 1);
    assert!(matches!(pool.begin_flush(PageId(99)), Err(StorageError::PageNotFound(99))));
    pool.clear_all();
    assert!(pool.is_empty());
    let _ = BufferStats::new();
}

#[test]
fn page_images_roundtrip() {
    let mut page = Page::new(PageId(5), PageType::Node, VersionId(3), 128);
    page.data[0] = 9;
    page.data[1] = 8;
    page.header.data_size = 2;
    page.update_checksum();
    let image = page_image(&page, 128);
    assert_eq!(image.len(), 128);
    let back = page_from_image(PageId(5), &image).unwrap();
    assert_eq!(back.header.checksum, page.header.checksum);
    assert_eq!(back.header.data_size, 2);
    assert_eq!(&back.data[0..2], &[9, 8]);
    assert!(back.data[2..].iter().all(|b| *b == 0));

    let mut corrupt = image.clone();
    corrupt[33] ^= 0xFF;
    assert!(matches!(page_from_image(PageId(5), &corrupt), Err(StorageError::Corruption(_))));

    assert_eq!(page_offset(PageId(0), 4096), 0);
    assert_eq!(page_offset(PageId(1), 4096), 4096);
    assert_eq!(page_offset(PageId(3), 1024), 4096 + 2 * 1024);

    let free = free_list_page(PageId(4), PageId(2), 4096);
    assert!(free.verify_checksum());
    assert_eq!(next_free_page(&free), Some(PageId(2)));
}
