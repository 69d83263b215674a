use dotdb_core::storage_engine::file_format::{PageId, PageType};
use dotdb_core::storage_engine::lib::VersionId;
use dotdb_core::storage_engine::page_manager::{PageAllocation, PageManager, FREED_BATCH};

fn count_of(counts: &[(PageType, usize)], t: PageType) -> Option<usize> {
    counts.iter().find(|(k, _)| *k == t).map(|(_, n)| *n)
}

#[test]
fn allocation_prefers_the_free_list() {
    let mut pm = PageManager::new();
    assert_eq!(pm.current_version(), VersionId(1));
    assert_eq!(pm.allocate_page(PageType::Data), None);

    let a = pm.record_new_page(PageId(7), PageType::Data);
    assert_eq!(a, PageAllocation { page_id: PageId(7), page_type: PageType::Data, is_new: true, version: VersionId(1) });

    // A page allocated in this session goes straight back to its free list.
    assert!(pm.free_page(PageId(7), PageType::Data).is_empty());
    assert_eq!(count_of(&pm.free_pages_count(), PageType::Data), Some(1));

    let b = pm.allocate_page(PageType::Data).unwrap();
    assert_eq!(b, PageAllocation { page_id: PageId(7), page_type: PageType::Data, is_new: false, version: VersionId(1) });
    assert_eq!(count_of(&pm.free_pages_count(), PageType::Data), Some(0));
    assert_eq!(pm.allocate_page(PageType::Node), None);
    assert_eq!(pm.get_latest_version(PageId(7)), Some(VersionId(1)));
}

#[test]
fn freed_pages_come_back_in_batches() {
    let mut pm = PageManager::new();
    for i in 0..(FREED_BATCH as u64 - 1) {
        assert!(pm.free_page(PageId(100 + i), PageType::Node).is_empty());
    }
    assert_eq!(count_of(&pm.recently_freed_count(), PageType::Node), Some(FREED_BATCH - 1));
    let batch = pm.free_page(PageId(999), PageType::Node);
    assert_eq!(batch.len(), FREED_BATCH);
    assert_eq!(batch[0], PageId(100));
    assert_eq!(batch[FREED_BATCH - 1], PageId(999));
    assert_eq!(count_of(&pm.recently_freed_count(), PageType::Node), Some(0));

    pm.add_freed_pages(PageType::Node, &batch);
    assert_eq!(count_of(&pm.free_pages_count(), PageType::Node), Some(FREED_BATCH));
    assert_eq!(pm.allocate_page(PageType::Node).unwrap().page_id, PageId(100));

    assert!(pm.free_page(PageId(5), PageType::Meta).is_empty());
    assert_eq!(pm.freed_page_types().len(), 2);
    assert_eq!(pm.take_freed_pages(PageType::Meta), vec![PageId(5)]);
    assert!(pm.take_freed_pages(PageType::Meta).is_empty());

    pm.clear_free_pages();
    assert!(pm.free_pages_count().is_empty());
    assert!(pm.recently_freed_count().is_empty());
}

#[test]
fn page_versions_are_tracked_and_trimmed() {
    let mut pm = PageManager::new();
    pm.record_new_page(PageId(1), PageType::Data);
    pm.free_page(PageId(1), PageType::Data);
    for _ in 0..3 {
        pm.start_new_version();
        let a = pm.allocate_page(PageType::Data).unwrap();
        assert_eq!(a.page_id, PageId(1));
        pm.free_page(PageId(1), PageType::Data);
    }
    assert_eq!(pm.current_version(), VersionId(4));
    assert_eq!(pm.get_latest_version(PageId(1)), Some(VersionId(4)));
    assert_eq!(pm.get_page_version(PageId(1), VersionId(3)), Some(VersionId(3)));
    assert_eq!(pm.get_page_version(PageId(1), VersionId(0)), None);
    assert_eq!(pm.get_page_version(PageId(2), VersionId(3)), None);

    // Versions 1..=4 of page 1: compaction keeps only version 4.
    assert_eq!(pm.compact(), 3);
    assert_eq!(pm.get_page_version(PageId(1), VersionId(3)), None);
    assert_eq!(pm.get_latest_version(PageId(1)), Some(VersionId(4)));
    assert_eq!(pm.compact(), 0);

    // With ten versions kept, version 4 is dropped once version 14 starts.
    pm.set_version(VersionId(13));
    pm.cleanup_old_versions();
    assert_eq!(pm.get_latest_version(PageId(1)), Some(VersionId(4)));
    assert_eq!(pm.start_new_version(), VersionId(14));
    assert_eq!(pm.get_latest_version(PageId(1)), None);
}
