//! Page bookkeeping: free lists per page type, pages freed in batches, and
//! the versions at which each page was allocated. Reading and writing the
//! storage file is left to the caller, which hands back what it got.
use vstd::prelude::*;

use crate::assoc_list::{AssocList, KeyEq, distinct_keys, lemma_distinct_last_index, lemma_last_index, lemma_map_of, lemma_map_of_contains, map_of};
use crate::storage_engine::file_format::{PageId, PageType};
use crate::storage_engine::lib::VersionId;

verus! {

impl View for PageType {
    type V = PageType;

    open spec fn view(&self) -> PageType {
        *self
    }
}

impl KeyEq for PageType {
    fn key_eq(&self, other: &Self) -> (r: bool) {
        *self == *other
    }

    fn key_clone(&self) -> (r: Self) {
        *self
    }
}

/// Result of a page allocation operation
#[derive(Debug, Clone, Copy, PartialEq, Eq, Structural)]
pub struct PageAllocation {
    /// The allocated page ID
    pub page_id: PageId,
    /// The type of page allocated
    pub page_type: PageType,
    /// Whether this page was newly allocated (true) or reused (false)
    pub is_new: bool,
    /// The version of this allocation
    pub version: VersionId,
}

/// Number of pages a type's freed list gathers before they are handed back
/// to be freed in the file.
pub const FREED_BATCH: usize = 100;

/// The list held for `t`, or an empty one.
pub open spec fn list_of(m: Map<PageType, Seq<PageId>>, t: PageType) -> Seq<PageId> {
    if m.contains_key(t) {
        m[t]
    } else {
        Seq::empty()
    }
}

/// The free lists once page `id` is offered to type `t`: kept while that
/// list is shorter than `max`.
pub open spec fn offered(m: Map<PageType, Seq<PageId>>, t: PageType, id: PageId, max: nat) -> Map<PageType, Seq<PageId>> {
    let l = list_of(m, t);
    m.insert(
        t,
        if l.len() < max {
            l.push(id)
        } else {
            l
        },
    )
}

/// The free lists once the pages `ps` are offered to type `t` in order.
pub open spec fn offered_all(m: Map<PageType, Seq<PageId>>, t: PageType, ps: Seq<PageId>, max: nat) -> Map<
    PageType,
    Seq<PageId>,
>
    decreases ps.len(),
{
    if ps.len() == 0 {
        m
    } else {
        offered(offered_all(m, t, ps.drop_last(), max), t, ps.last(), max)
    }
}

/// The version histories once page `id` is allocated at version `v`.
pub open spec fn versions_pushed(m: Map<u64, Seq<VersionId>>, id: u64, v: VersionId) -> Map<u64, Seq<VersionId>> {
    m.insert(
        id,
        if m.contains_key(id) {
            m[id].push(v)
        } else {
            seq![v]
        },
    )
}

/// The last version of `s` not after `v`.
pub open spec fn latest_at_most(s: Seq<VersionId>, v: VersionId) -> Option<VersionId>
    decreases s.len(),
{
    if s.len() == 0 {
        None
    } else if s.last().0 <= v.0 {
        Some(s.last())
    } else {
        latest_at_most(s.drop_last(), v)
    }
}

/// Whether version `v` is kept when versions before `lo` are dropped.
pub open spec fn kept_from(lo: u64) -> spec_fn(VersionId) -> bool {
    |v: VersionId| v.0 >= lo
}

/// The version histories once versions before `lo` are dropped, and pages
/// left with none are forgotten.
pub open spec fn versions_from(m: Map<u64, Seq<VersionId>>, lo: u64) -> Map<u64, Seq<VersionId>> {
    Map::new(|k: u64| m.contains_key(k) && m[k].filter(kept_from(lo)).len() > 0, |k: u64| m[k].filter(kept_from(lo)))
}

/// The oldest version number kept when `max` versions up to `current` are kept.
pub open spec fn oldest_kept(current: u64, max: u32) -> u64 {
    if current >= max {
        (current - max + 1) as u64
    } else {
        1
    }
}

/// The greatest version of a nonempty `s` (the last of equal ones).
pub open spec fn max_version(s: Seq<VersionId>) -> VersionId
    decreases s.len(),
{
    if s.len() <= 1 {
        s[0]
    } else {
        let m = max_version(s.drop_last());
        if s.last().0 >= m.0 {
            s.last()
        } else {
            m
        }
    }
}

/// Whether a version differs from `m`.
pub open spec fn other_than(m: VersionId) -> spec_fn(VersionId) -> bool {
    |v: VersionId| v.0 != m.0
}

/// A history compacted: only its greatest version is left.
pub open spec fn compacted(s: Seq<VersionId>) -> Seq<VersionId> {
    if s.len() > 1 {
        seq![max_version(s)]
    } else {
        s
    }
}

/// The versions compaction drops from a history, counting those equal to
/// the greatest version as kept.
pub open spec fn dropped_count(s: Seq<VersionId>) -> nat {
    if s.len() > 1 {
        s.filter(other_than(max_version(s))).len()
    } else {
        0
    }
}

/// The versions compaction drops from the histories `es`.
pub open spec fn dropped_total(es: Seq<(u64, Seq<VersionId>)>) -> nat
    decreases es.len(),
{
    if es.len() == 0 {
        0
    } else {
        dropped_total(es.drop_last()) + dropped_count(es.last().1)
    }
}

/// Allocation, freeing and version tracking of pages.
pub struct PageManager {
    current_version: VersionId,
    free_pages: AssocList<PageType, Vec<PageId>>,
    allocated_pages: AssocList<u64, ()>,
    recently_freed: AssocList<PageType, Vec<PageId>>,
    max_free_list_size: usize,
    initialized: bool,
    page_versions: AssocList<u64, Vec<VersionId>>,
    max_versions: u32,
}

impl PageManager {
    /// The current working version.
    pub closed spec fn version(&self) -> VersionId {
        self.current_version
    }

    /// The free lists by page type.
    pub closed spec fn free_map(&self) -> Map<PageType, Seq<PageId>> {
        self.free_pages.view_map().map_values(|l: Vec<PageId>| l@)
    }

    /// The pages allocated in this session and not freed since.
    pub closed spec fn allocated(&self) -> Set<u64> {
        self.allocated_pages.view_map().dom()
    }

    /// The pages freed but not yet handed back, by page type.
    pub closed spec fn freed_map(&self) -> Map<PageType, Seq<PageId>> {
        self.recently_freed.view_map().map_values(|l: Vec<PageId>| l@)
    }

    /// The allocation versions of each page.
    pub closed spec fn versions_map(&self) -> Map<u64, Seq<VersionId>> {
        self.page_versions.view_map().map_values(|l: Vec<VersionId>| l@)
    }

    /// The allocation histories in the order they are kept.
    pub closed spec fn version_entries(&self) -> Seq<(u64, Seq<VersionId>)> {
        self.page_versions.entries@.map_values(|e: (u64, Vec<VersionId>)| (e.0, e.1@))
    }

    /// The longest a free list grows.
    pub closed spec fn max_free(&self) -> nat {
        self.max_free_list_size as nat
    }

    /// How many versions are kept.
    pub closed spec fn versions_kept(&self) -> u32 {
        self.max_versions
    }

    /// Whether the manager was initialized.
    pub closed spec fn ready(&self) -> bool {
        self.initialized
    }

    pub closed spec fn inv(&self) -> bool {
        &&& self.free_pages.wf()
        &&& self.allocated_pages.wf()
        &&& self.recently_freed.wf()
        &&& self.page_versions.wf()
    }

    /// Create a new page manager at version 1 with empty lists.
    pub fn new() -> (r: Self)
        ensures
            r.inv(),
            r.version() == VersionId(1),
            r.free_map() == Map::<PageType, Seq<PageId>>::empty(),
            r.freed_map() == Map::<PageType, Seq<PageId>>::empty(),
            r.allocated() == Set::<u64>::empty(),
            r.versions_map() == Map::<u64, Seq<VersionId>>::empty(),
            r.max_free() == 1000,
            r.versions_kept() == 10,
            !r.ready(),
    {
        let r = PageManager {
            current_version: VersionId(1),
            free_pages: AssocList::new(),
            allocated_pages: AssocList::new(),
            recently_freed: AssocList::new(),
            max_free_list_size: 1000,
            initialized: false,
            page_versions: AssocList::new(),
            max_versions: 10,
        };
        assert(r.free_map() =~= Map::<PageType, Seq<PageId>>::empty());
        assert(r.freed_map() =~= Map::<PageType, Seq<PageId>>::empty());
        assert(r.allocated() =~= Set::<u64>::empty());
        assert(r.versions_map() =~= Map::<u64, Seq<VersionId>>::empty());
        r
    }

    /// Set the current working version.
    pub fn set_version(&mut self, version: VersionId)
        ensures
            final(self).version() == version,
            final(self).inv() == old(self).inv(),
            final(self).free_map() == old(self).free_map(),
            final(self).freed_map() == old(self).freed_map(),
            final(self).allocated() == old(self).allocated(),
            final(self).versions_map() == old(self).versions_map(),
            final(self).version_entries() == old(self).version_entries(),
            final(self).max_free() == old(self).max_free(),
            final(self).versions_kept() == old(self).versions_kept(),
            final(self).ready() == old(self).ready(),
    {
        self.current_version = version;
    }

    /// Get the current working version.
    pub fn current_version(&self) -> (r: VersionId)
        ensures
            r == self.version(),
    {
        self.current_version
    }

    /// Whether the manager was initialized.
    pub fn is_initialized(&self) -> (r: bool)
        ensures
            r == self.ready(),
    {
        self.initialized
    }

    /// Record that the manager was initialized.
    pub fn mark_initialized(&mut self)
        ensures
            final(self).ready(),
            final(self).inv() == old(self).inv(),
            final(self).version() == old(self).version(),
            final(self).free_map() == old(self).free_map(),
            final(self).freed_map() == old(self).freed_map(),
            final(self).allocated() == old(self).allocated(),
            final(self).versions_map() == old(self).versions_map(),
            final(self).max_free() == old(self).max_free(),
            final(self).versions_kept() == old(self).versions_kept(),
    {
        self.initialized = true;
    }

    /// Clear the free page cache: the free lists and the freed pages.
    pub fn clear_free_pages(&mut self)
        requires
            old(self).inv(),
        ensures
            final(self).inv(),
            final(self).free_map() == Map::<PageType, Seq<PageId>>::empty(),
            final(self).freed_map() == Map::<PageType, Seq<PageId>>::empty(),
            final(self).version() == old(self).version(),
            final(self).allocated() == old(self).allocated(),
            final(self).versions_map() == old(self).versions_map(),
            final(self).max_free() == old(self).max_free(),
            final(self).versions_kept() == old(self).versions_kept(),
    {
        self.free_pages = AssocList::new();
        self.recently_freed = AssocList::new();
        assert(self.free_map() =~= Map::<PageType, Seq<PageId>>::empty());
        assert(self.freed_map() =~= Map::<PageType, Seq<PageId>>::empty());
    }

    /// Track an allocation of `id` at the current version.
    fn track_allocation(&mut self, id: PageId)
        requires
            old(self).inv(),
        ensures
            final(self).inv(),
            final(self).allocated() == old(self).allocated().insert(id.0),
            final(self).versions_map() == versions_pushed(old(self).versions_map(), id.0, old(self).version()),
            final(self).version() == old(self).version(),
            final(self).free_map() == old(self).free_map(),
            final(self).freed_map() == old(self).freed_map(),
            final(self).max_free() == old(self).max_free(),
            final(self).versions_kept() == old(self).versions_kept(),
            final(self).ready() == old(self).ready(),
    {
        self.allocated_pages.insert(id.0, ());
        let v = self.current_version;
        let mut list: Vec<VersionId> = match self.page_versions.remove(&id.0) {
            Some(l) => l,
            None => Vec::new(),
        };
        list.push(v);
        self.page_versions.insert(id.0, list);
        proof {
            let old_m = old(self).versions_map();
            assert(self.versions_map() =~= versions_pushed(old_m, id.0, v)) by {
                if old_m.contains_key(id.0) {
                    assert(old(self).page_versions.view_map()[id.0]@ == old_m[id.0]);
                } else {
                    assert(list@ =~= seq![v]);
                }
            }
            assert(self.allocated() =~= old(self).allocated().insert(id.0));
        }
    }

    /// Allocate a page of type `page_type` from its free list: the first page
    /// of the list is reused and tracked at the current version. `None` where
    /// the list is empty, and then nothing changes: a new page must come from
    /// the storage file (see `record_new_page`).
    pub fn allocate_page(&mut self, page_type: PageType) -> (r: Option<PageAllocation>)
        requires
            old(self).inv(),
        ensures
            final(self).inv(),
            final(self).version() == old(self).version(),
            final(self).freed_map() == old(self).freed_map(),
            final(self).max_free() == old(self).max_free(),
            final(self).versions_kept() == old(self).versions_kept(),
            final(self).ready() == old(self).ready(),
            list_of(old(self).free_map(), page_type).len() > 0 ==> {
                let id = list_of(old(self).free_map(), page_type)[0];
                &&& r == Some(PageAllocation { page_id: id, page_type, is_new: false, version: old(self).version() })
                &&& final(self).free_map() == old(self).free_map().insert(
                    page_type,
                    list_of(old(self).free_map(), page_type).drop_first(),
                )
                &&& final(self).allocated() == old(self).allocated().insert(id.0)
                &&& final(self).versions_map() == versions_pushed(old(self).versions_map(), id.0, old(self).version())
            },
            list_of(old(self).free_map(), page_type).len() == 0 ==> r is None && final(self).free_map() == old(
                self,
            ).free_map() && final(self).allocated() == old(self).allocated() && final(self).versions_map() == old(
                self,
            ).versions_map() && final(self).version_entries() == old(self).version_entries(),
    {
        let found = match self.free_pages.find(&page_type) {
            Some(i) => self.free_pages.entries[i].1.len() > 0,
            None => false,
        };
        if !found {
            return None;
        }
        let mut list = match self.free_pages.remove(&page_type) {
            Some(l) => l,
            None => Vec::new(),
        };
        let ghost l0 = list@;
        let page_id = list.remove(0);
        self.free_pages.insert(page_type, list);
        proof {
            assert(old(self).free_pages.view_map()[page_type]@ == l0);
            assert(list@ =~= l0.drop_first());
            assert(self.free_map() =~= old(self).free_map().insert(page_type, l0.drop_first()));
        }
        self.track_allocation(page_id);
        Some(PageAllocation { page_id, page_type, is_new: false, version: self.current_version })
    }

    /// Prefetch a page of the specified type: as `allocate_page`.
    pub fn prefetch_page(&mut self, page_type: PageType) -> (r: Option<PageAllocation>)
        requires
            old(self).inv(),
        ensures
            final(self).inv(),
            final(self).version() == old(self).version(),
            final(self).freed_map() == old(self).freed_map(),
            list_of(old(self).free_map(), page_type).len() > 0 ==> {
                let id = list_of(old(self).free_map(), page_type)[0];
                &&& r == Some(PageAllocation { page_id: id, page_type, is_new: false, version: old(self).version() })
                &&& final(self).free_map() == old(self).free_map().insert(
                    page_type,
                    list_of(old(self).free_map(), page_type).drop_first(),
                )
                &&& final(self).allocated() == old(self).allocated().insert(id.0)
                &&& final(self).versions_map() == versions_pushed(old(self).versions_map(), id.0, old(self).version())
            },
            list_of(old(self).free_map(), page_type).len() == 0 ==> r is None && final(self).free_map() == old(
                self,
            ).free_map() && final(self).allocated() == old(self).allocated() && final(self).versions_map() == old(
                self,
            ).versions_map(),
    {
        self.allocate_page(page_type)
    }

    /// Record a page newly allocated in the storage file for `page_type`,
    /// tracked at the current version.
    pub fn record_new_page(&mut self, page_id: PageId, page_type: PageType) -> (r: PageAllocation)
        requires
            old(self).inv(),
        ensures
            final(self).inv(),
            r == (PageAllocation { page_id, page_type, is_new: true, version: old(self).version() }),
            final(self).allocated() == old(self).allocated().insert(page_id.0),
            final(self).versions_map() == versions_pushed(old(self).versions_map(), page_id.0, old(self).version()),
            final(self).version() == old(self).version(),
            final(self).free_map() == old(self).free_map(),
            final(self).freed_map() == old(self).freed_map(),
            final(self).max_free() == old(self).max_free(),
            final(self).versions_kept() == old(self).versions_kept(),
    {
        self.track_allocation(page_id);
        PageAllocation { page_id, page_type, is_new: true, version: self.current_version }
    }

    /// Offer page `id` to the free list of `page_type`: kept while the list
    /// is below its maximum size.
    fn add_to_free_list(&mut self, page_type: PageType, page_id: PageId)
        requires
            old(self).inv(),
        ensures
            final(self).inv(),
            final(self).free_map() == offered(old(self).free_map(), page_type, page_id, old(self).max_free()),
            final(self).version() == old(self).version(),
            final(self).freed_map() == old(self).freed_map(),
            final(self).allocated() == old(self).allocated(),
            final(self).versions_map() == old(self).versions_map(),
            final(self).version_entries() == old(self).version_entries(),
            final(self).max_free() == old(self).max_free(),
            final(self).versions_kept() == old(self).versions_kept(),
            final(self).ready() == old(self).ready(),
    {
        let mut list = match self.free_pages.remove(&page_type) {
            Some(l) => l,
            None => Vec::new(),
        };
        let ghost l0 = list@;
        if list.len() < self.max_free_list_size {
            list.push(page_id);
        }
        self.free_pages.insert(page_type, list);
        proof {
            let m = old(self).free_map();
            assert(l0 == list_of(m, page_type)) by {
                if m.contains_key(page_type) {
                    assert(old(self).free_pages.view_map()[page_type]@ == m[page_type]);
                } else {
                    assert(l0 =~= Seq::<PageId>::empty());
                }
            }
            assert(self.free_map() =~= offered(m, page_type, page_id, old(self).max_free()));
        }
    }

    /// Offer the pages `pages`, freed in the storage file, to the free list
    /// of `page_type` in order.
    pub fn add_freed_pages(&mut self, page_type: PageType, pages: &Vec<PageId>)
        requires
            old(self).inv(),
        ensures
            final(self).inv(),
            final(self).free_map() == offered_all(old(self).free_map(), page_type, pages@, old(self).max_free()),
            final(self).version() == old(self).version(),
            final(self).freed_map() == old(self).freed_map(),
            final(self).allocated() == old(self).allocated(),
            final(self).versions_map() == old(self).versions_map(),
            final(self).max_free() == old(self).max_free(),
            final(self).versions_kept() == old(self).versions_kept(),
            final(self).ready() == old(self).ready(),
    {
        let mut i: usize = 0;
        while i < pages.len()
            invariant
                i <= pages@.len(),
                self.inv(),
                self.free_map() == offered_all(old(self).free_map(), page_type, pages@.take(i as int), old(self).max_free()),
                self.version() == old(self).version(),
                self.freed_map() == old(self).freed_map(),
                self.allocated() == old(self).allocated(),
                self.versions_map() == old(self).versions_map(),
                self.max_free() == old(self).max_free(),
                self.versions_kept() == old(self).versions_kept(),
                self.ready() == old(self).ready(),
            decreases pages@.len() - i,
        {
            self.add_to_free_list(page_type, pages[i]);
            proof {
                assert(pages@.take(i + 1).drop_last() =~= pages@.take(i as int));
                assert(pages@.take(i + 1).last() == pages@[i as int]);
            }
            i = i + 1;
        }
        assert(pages@.take(pages@.len() as int) =~= pages@);
    }

    /// Free a page. A page allocated in this session goes straight back to
    /// its free list and nothing is returned. Any other page joins the freed
    /// pages of its type; once they number `FREED_BATCH` they are all taken
    /// out and returned, to be freed in the storage file and then handed to
    /// `add_freed_pages`.
    pub fn free_page(&mut self, page_id: PageId, page_type: PageType) -> (r: Vec<PageId>)
        requires
            old(self).inv(),
        ensures
            final(self).inv(),
            final(self).version() == old(self).version(),
            final(self).versions_map() == old(self).versions_map(),
            final(self).max_free() == old(self).max_free(),
            final(self).versions_kept() == old(self).versions_kept(),
            final(self).ready() == old(self).ready(),
            old(self).allocated().contains(page_id.0) ==> {
                &&& r@ == Seq::<PageId>::empty()
                &&& final(self).allocated() == old(self).allocated().remove(page_id.0)
                &&& final(self).free_map() == offered(old(self).free_map(), page_type, page_id, old(self).max_free())
                &&& final(self).freed_map() == old(self).freed_map()
            },
            !old(self).allocated().contains(page_id.0) ==> {
                let l = list_of(old(self).freed_map(), page_type).push(page_id);
                &&& final(self).allocated() == old(self).allocated()
                &&& final(self).free_map() == old(self).free_map()
                &&& if l.len() >= FREED_BATCH {
                    r@ == l && final(self).freed_map() == old(self).freed_map().insert(page_type, Seq::empty())
                } else {
                    r@ == Seq::<PageId>::empty() && final(self).freed_map() == old(self).freed_map().insert(page_type, l)
                }
            },
    {
        match self.allocated_pages.remove(&page_id.0) {
            Some(_) => {
                assert(self.allocated() =~= old(self).allocated().remove(page_id.0));
                self.add_to_free_list(page_type, page_id);
                return Vec::new();
            },
            None => {
                assert(self.allocated_pages.view_map() =~= old(self).allocated_pages.view_map());
            },
        }
        let mut list = match self.recently_freed.remove(&page_type) {
            Some(l) => l,
            None => Vec::new(),
        };
        proof {
            let m = old(self).freed_map();
            if m.contains_key(page_type) {
                assert(old(self).recently_freed.view_map()[page_type]@ == m[page_type]);
            } else {
                assert(list@ =~= Seq::<PageId>::empty());
            }
            assert(list@ == list_of(m, page_type));
        }
        list.push(page_id);
        if list.len() >= FREED_BATCH {
            self.recently_freed.insert(page_type, Vec::new());
            assert(self.freed_map() =~= old(self).freed_map().insert(page_type, Seq::empty()));
            list
        } else {
            let ghost l = list@;
            self.recently_freed.insert(page_type, list);
            assert(self.freed_map() =~= old(self).freed_map().insert(page_type, l));
            Vec::new()
        }
    }

    /// Take out the freed pages of `page_type`, to be freed in the storage
    /// file and then handed to `add_freed_pages`; the type keeps an empty
    /// list. Nothing changes where it has none.
    pub fn take_freed_pages(&mut self, page_type: PageType) -> (r: Vec<PageId>)
        requires
            old(self).inv(),
        ensures
            final(self).inv(),
            r@ == list_of(old(self).freed_map(), page_type),
            final(self).freed_map() == if r@.len() > 0 {
                old(self).freed_map().insert(page_type, Seq::empty())
            } else {
                old(self).freed_map()
            },
            final(self).version() == old(self).version(),
            final(self).free_map() == old(self).free_map(),
            final(self).allocated() == old(self).allocated(),
            final(self).versions_map() == old(self).versions_map(),
            final(self).max_free() == old(self).max_free(),
            final(self).versions_kept() == old(self).versions_kept(),
            final(self).ready() == old(self).ready(),
    {
        let n = match self.recently_freed.get(&page_type) {
            Some(l) => l.len(),
            None => 0,
        };
        if n == 0 {
            proof {
                let m = old(self).freed_map();
                if m.contains_key(page_type) {
                    assert(old(self).recently_freed.view_map()[page_type]@ == m[page_type]);
                }
            }
            return Vec::new();
        }
        let list = match self.recently_freed.remove(&page_type) {
            Some(l) => l,
            None => Vec::new(),
        };
        self.recently_freed.insert(page_type, Vec::new());
        proof {
            assert(old(self).recently_freed.view_map()[page_type]@ == old(self).freed_map()[page_type]);
            assert(self.freed_map() =~= old(self).freed_map().insert(page_type, Seq::empty()));
        }
        list
    }

    /// The page types with a freed list, each once.
    pub fn freed_page_types(&self) -> (r: Vec<PageType>)
        requires
            self.inv(),
        ensures
            r@.no_duplicates(),
            forall|t: PageType| #[trigger] r@.contains(t) <==> self.freed_map().contains_key(t),
    {
        let keys = self.recently_freed.keys();
        proof {
            let es = self.recently_freed.entries@;
            assert forall|a: int, b: int| 0 <= a < keys@.len() && 0 <= b < keys@.len() && a != b implies keys@[a] != keys@[b] by {
                assert(keys@[a]@ == es[a].0@);
                assert(keys@[b]@ == es[b].0@);
            }
            assert forall|t: PageType| #[trigger] keys@.contains(t) <==> self.freed_map().contains_key(t) by {
                lemma_map_of_contains(es, t);
                if keys@.contains(t) {
                    let i = choose|i: int| 0 <= i < keys@.len() && keys@[i] == t;
                    assert(keys@[i]@ == es[i].0@);
                }
                if exists|i: int| 0 <= i < es.len() && #[trigger] es[i].0@ == t {
                    let i = choose|i: int| 0 <= i < es.len() && #[trigger] es[i].0@ == t;
                    assert(keys@[i]@ == es[i].0@);
                }
            }
        }
        keys
    }

    /// The length of each list of `l`, by page type.
    fn list_counts(l: &AssocList<PageType, Vec<PageId>>) -> (r: Vec<(PageType, usize)>)
        requires
            l.wf(),
        ensures
            distinct_keys(r@),
            forall|t: PageType| l.view_map().contains_key(t) <==> exists|i: int| 0 <= i < r@.len() && #[trigger] r@[i].0 == t,
            forall|i: int| 0 <= i < r@.len() ==> #[trigger] r@[i].1 == l.view_map()[r@[i].0]@.len(),
    {
        let ghost es = l.entries@;
        let mut r: Vec<(PageType, usize)> = Vec::new();
        let mut i: usize = 0;
        while i < l.entries.len()
            invariant
                i <= es.len(),
                es == l.entries@,
                distinct_keys(es),
                r@.len() == i,
                forall|j: int| 0 <= j < i ==> #[trigger] r@[j].0 == es[j].0 && r@[j].1 as int == es[j].1@.len(),
            decreases es.len() - i,
        {
            r.push((l.entries[i].0, l.entries[i].1.len()));
            i = i + 1;
        }
        proof {
            assert forall|a: int, b: int| 0 <= a < r@.len() && 0 <= b < r@.len() && a != b implies r@[a].0@ != r@[b].0@ by {
                assert(r@[a].0 == es[a].0 && r@[b].0 == es[b].0);
            }
            assert forall|t: PageType| l.view_map().contains_key(t) <==> exists|i: int| 0 <= i < r@.len() && #[trigger] r@[i].0 == t by {
                lemma_map_of_contains(es, t);
                if exists|i: int| 0 <= i < es.len() && #[trigger] es[i].0@ == t {
                    let i = choose|i: int| 0 <= i < es.len() && #[trigger] es[i].0@ == t;
                    assert(r@[i].0 == t);
                }
                if exists|i: int| 0 <= i < r@.len() && #[trigger] r@[i].0 == t {
                    let i = choose|i: int| 0 <= i < r@.len() && #[trigger] r@[i].0 == t;
                    assert(es[i].0@ == t);
                }
            }
            assert forall|i: int| 0 <= i < r@.len() implies #[trigger] r@[i].1 == l.view_map()[r@[i].0]@.len() by {
                lemma_distinct_last_index(es, i);
                assert(r@[i].0 == es[i].0 && r@[i].1 as int == es[i].1@.len());
            }
        }
        r
    }

    /// Get the number of free pages by type.
    pub fn free_pages_count(&self) -> (r: Vec<(PageType, usize)>)
        requires
            self.inv(),
        ensures
            distinct_keys(r@),
            forall|t: PageType| self.free_map().contains_key(t) <==> exists|i: int| 0 <= i < r@.len() && #[trigger] r@[i].0 == t,
            forall|i: int| 0 <= i < r@.len() ==> #[trigger] r@[i].1 == self.free_map()[r@[i].0].len(),
    {
        Self::list_counts(&self.free_pages)
    }

    /// Get the number of freed pages not yet handed back, by type.
    pub fn recently_freed_count(&self) -> (r: Vec<(PageType, usize)>)
        requires
            self.inv(),
        ensures
            distinct_keys(r@),
            forall|t: PageType| self.freed_map().contains_key(t) <==> exists|i: int| 0 <= i < r@.len() && #[trigger] r@[i].0 == t,
            forall|i: int| 0 <= i < r@.len() ==> #[trigger] r@[i].1 == self.freed_map()[r@[i].0].len(),
    {
        Self::list_counts(&self.recently_freed)
    }

    /// The latest allocation version of `page_id` not after `version`.
    pub fn get_page_version(&self, page_id: PageId, version: VersionId) -> (r: Option<VersionId>)
        requires
            self.inv(),
        ensures
            r == if self.versions_map().contains_key(page_id.0) {
                latest_at_most(self.versions_map()[page_id.0], version)
            } else {
                None
            },
    {
        match self.page_versions.get(&page_id.0) {
            Some(versions) => {
                let ghost s = versions@;
                let mut i = versions.len();
                assert(s.take(s.len() as int) =~= s);
                assert(self.versions_map().contains_key(page_id.0) && self.versions_map()[page_id.0] == s);
                while i > 0
                    invariant
                        i <= s.len(),
                        s == versions@,
                        self.versions_map().contains_key(page_id.0) && self.versions_map()[page_id.0] == s,
                        latest_at_most(s, version) == latest_at_most(s.take(i as int), version),
                    decreases i,
                {
                    let v = versions[i - 1];
                    assert(s.take(i as int).drop_last() =~= s.take(i - 1));
                    assert(s.take(i as int).last() == v);
                    if v.0 <= version.0 {
                        assert(s.take(i as int).len() == i);
                        assert(latest_at_most(s.take(i as int), version) == Some(v));
                        return Some(v);
                    }
                    i = i - 1;
                }
                assert(s.take(0) =~= Seq::<VersionId>::empty());
                None
            },
            None => None,
        }
    }

    /// Get the latest allocation version of `page_id`.
    pub fn get_latest_version(&self, page_id: PageId) -> (r: Option<VersionId>)
        requires
            self.inv(),
        ensures
            r == if self.versions_map().contains_key(page_id.0) && self.versions_map()[page_id.0].len() > 0 {
                Some(self.versions_map()[page_id.0].last())
            } else {
                None
            },
    {
        match self.page_versions.get(&page_id.0) {
            Some(versions) => {
                if versions.len() > 0 {
                    Some(versions[versions.len() - 1])
                } else {
                    None
                }
            },
            None => None,
        }
    }

    /// Drop versions older than the last `max_versions` ones up to the
    /// current version; pages left with no version are forgotten. Nothing
    /// changes where no version is to be kept.
    pub fn cleanup_old_versions(&mut self)
        requires
            old(self).inv(),
        ensures
            final(self).inv(),
            final(self).versions_map() == if old(self).versions_kept() == 0 {
                old(self).versions_map()
            } else {
                versions_from(old(self).versions_map(), oldest_kept(old(self).version().0, old(self).versions_kept()))
            },
            final(self).version() == old(self).version(),
            final(self).free_map() == old(self).free_map(),
            final(self).freed_map() == old(self).freed_map(),
            final(self).allocated() == old(self).allocated(),
            final(self).max_free() == old(self).max_free(),
            final(self).versions_kept() == old(self).versions_kept(),
            final(self).ready() == old(self).ready(),
    {
        if self.max_versions == 0 {
            return;
        }
        let cur = self.current_version.0;
        let max = self.max_versions as u64;
        let lo: u64 = if cur >= max {
            cur - max + 1
        } else {
            1
        };
        let ghost es = self.page_versions.entries@;
        let ghost m0 = old(self).versions_map();
        let mut kept: AssocList<u64, Vec<VersionId>> = AssocList::new();
        let mut i: usize = 0;
        while i < self.page_versions.entries.len()
            invariant
                i <= es.len(),
                es == self.page_versions.entries@,
                distinct_keys(es),
                kept.wf(),
                kept.view_map().map_values(|l: Vec<VersionId>| l@) == versions_from(
                    map_of(es.take(i as int)).map_values(|l: Vec<VersionId>| l@),
                    lo,
                ),
            decreases es.len() - i,
        {
            let id = self.page_versions.entries[i].0;
            let versions = &self.page_versions.entries[i].1;
            let ghost s = versions@;
            let mut f: Vec<VersionId> = Vec::new();
            let mut j: usize = 0;
            while j < versions.len()
                invariant
                    j <= s.len(),
                    s == versions@,
                    f@ == s.take(j as int).filter(kept_from(lo)),
                decreases s.len() - j,
            {
                let v = versions[j];
                proof {
                    assert(s.take(j + 1).drop_last() =~= s.take(j as int));
                    assert(s.take(j + 1).last() == v);
                    reveal_with_fuel(Seq::<_>::filter, 1);
                }
                if v.0 >= lo {
                    f.push(v);
                }
                j = j + 1;
            }
            assert(s.take(s.len() as int) =~= s);
            proof {
                let before = map_of(es.take(i as int));
                assert(es.take(i + 1).drop_last() =~= es.take(i as int));
                assert(es.take(i + 1).last() == es[i as int]);
                assert(map_of(es.take(i + 1)) == before.insert(id, es[i as int].1));
                lemma_map_of(es.take(i as int), id);
                lemma_last_index(es.take(i as int), id);
                if before.contains_key(id) {
                    let li = crate::assoc_list::last_index(es.take(i as int), id);
                    assert(es[li].0@ == id);
                }
            }
            let ghost k0 = kept.view_map();
            if f.len() > 0 {
                let ghost fs = f@;
                kept.insert(id, f);
                proof {
                    let before = map_of(es.take(i as int)).map_values(|l: Vec<VersionId>| l@);
                    let after = map_of(es.take(i + 1)).map_values(|l: Vec<VersionId>| l@);
                    assert(after =~= before.insert(id, s));
                    assert(fs == s.filter(kept_from(lo)));
                    assert(kept.view_map() == k0.insert(id, f));
                    assert(kept.view_map().map_values(|l: Vec<VersionId>| l@) =~= k0.map_values(|l: Vec<VersionId>| l@).insert(
                        id,
                        fs,
                    ));
                    assert(versions_from(after, lo) =~= versions_from(before, lo).insert(id, fs));
                    assert(kept.view_map().map_values(|l: Vec<VersionId>| l@) =~= versions_from(after, lo));
                }
            } else {
                proof {
                    let before = map_of(es.take(i as int)).map_values(|l: Vec<VersionId>| l@);
                    let after = map_of(es.take(i + 1)).map_values(|l: Vec<VersionId>| l@);
                    assert(after =~= before.insert(id, s));
                    assert(kept.view_map().map_values(|l: Vec<VersionId>| l@) =~= versions_from(after, lo));
                }
            }
            i = i + 1;
        }
        assert(es.take(es.len() as int) =~= es);
        self.page_versions = kept;
        assert(lo == oldest_kept(old(self).version().0, old(self).versions_kept()));
    }

    /// Start a new version, one after the current one, and drop versions
    /// beyond those kept; gives the new version.
    pub fn start_new_version(&mut self) -> (r: VersionId)
        requires
            old(self).inv(),
            old(self).version().0 < u64::MAX,
        ensures
            final(self).inv(),
            r == VersionId((old(self).version().0 + 1) as u64),
            final(self).version() == r,
            final(self).versions_map() == if old(self).versions_kept() == 0 {
                old(self).versions_map()
            } else {
                versions_from(old(self).versions_map(), oldest_kept(r.0, old(self).versions_kept()))
            },
            final(self).free_map() == old(self).free_map(),
            final(self).freed_map() == old(self).freed_map(),
            final(self).allocated() == old(self).allocated(),
            final(self).max_free() == old(self).max_free(),
            final(self).versions_kept() == old(self).versions_kept(),
    {
        let new_version = VersionId(self.current_version.0 + 1);
        self.current_version = new_version;
        self.cleanup_old_versions();
        new_version
    }

    /// Compact page versions: a page with several versions keeps only its
    /// greatest; gives the number of versions dropped (those equal to the
    /// greatest are not counted), stopping at `usize::MAX`.
    pub fn compact(&mut self) -> (r: usize)
        requires
            old(self).inv(),
        ensures
            final(self).inv(),
            final(self).versions_map() == old(self).versions_map().map_values(|s: Seq<VersionId>| compacted(s)),
            r == if dropped_total(old(self).version_entries()) <= usize::MAX {
                dropped_total(old(self).version_entries())
            } else {
                usize::MAX as nat
            },
            final(self).version() == old(self).version(),
            final(self).free_map() == old(self).free_map(),
            final(self).freed_map() == old(self).freed_map(),
            final(self).allocated() == old(self).allocated(),
            final(self).max_free() == old(self).max_free(),
            final(self).versions_kept() == old(self).versions_kept(),
    {
        let ghost es = self.page_versions.entries@;
        let ghost ev = old(self).version_entries();
        let mut count: usize = 0;
        let mut i: usize = 0;
        while i < self.page_versions.entries.len()
            invariant
                i <= es.len(),
                es.len() == self.page_versions.entries@.len(),
                ev == es.map_values(|e: (u64, Vec<VersionId>)| (e.0, e.1@)),
                self.page_versions.wf(),
                self.version() == old(self).version(),
                self.free_pages == old(self).free_pages,
                self.recently_freed == old(self).recently_freed,
                self.allocated_pages == old(self).allocated_pages,
                self.max_free_list_size == old(self).max_free_list_size,
                self.max_versions == old(self).max_versions,
                self.initialized == old(self).initialized,
                forall|j: int| 0 <= j < es.len() ==> #[trigger] self.page_versions.entries@[j].0 == es[j].0,
                forall|j: int| 0 <= j < i ==> #[trigger] self.page_versions.entries@[j].1@ == compacted(es[j].1@),
                forall|j: int| i <= j < es.len() ==> #[trigger] self.page_versions.entries@[j].1 == es[j].1,
                count == if dropped_total(ev.take(i as int)) <= usize::MAX {
                    dropped_total(ev.take(i as int))
                } else {
                    usize::MAX as nat
                },
            decreases es.len() - i,
        {
            let n = self.page_versions.entries[i].1.len();
            let ghost s = es[i as int].1@;
            if n > 1 {
                let versions = &self.page_versions.entries[i].1;
                let mut best = versions[0];
                let mut k: usize = 1;
                while k < n
                    invariant
                        1 <= k <= n,
                        n == s.len(),
                        s == versions@,
                        best == max_version(s.take(k as int)),
                    decreases n - k,
                {
                    proof {
                        assert(s.take(k + 1).drop_last() =~= s.take(k as int));
                        assert(s.take(k + 1).last() == s[k as int]);
                    }
                    if versions[k].0 >= best.0 {
                        best = versions[k];
                    }
                    k = k + 1;
                }
                assert(s.take(n as int) =~= s);
                let mut dropped: usize = 0;
                let mut q: usize = 0;
                while q < n
                    invariant
                        q <= n,
                        n == s.len(),
                        s == versions@,
                        dropped == s.take(q as int).filter(other_than(best)).len(),
                        dropped <= q,
                    decreases n - q,
                {
                    proof {
                        assert(s.take(q + 1).drop_last() =~= s.take(q as int));
                        assert(s.take(q + 1).last() == s[q as int]);
                        reveal_with_fuel(Seq::<_>::filter, 1);
                    }
                    if versions[q].0 != best.0 {
                        dropped = dropped + 1;
                    }
                    q = q + 1;
                }
                count = count.saturating_add(dropped);
                let ghost before = self.page_versions.entries@;
                self.page_versions.set_value(i, vec![best]);
                proof {
                    assert(self.page_versions.entries@[i as int].1@ =~= compacted(s));
                }
            }
            proof {
                assert(ev.take(i + 1).drop_last() =~= ev.take(i as int));
                assert(ev.take(i + 1).last() == ev[i as int]);
                assert(ev[i as int].1 == s);
            }
            i = i + 1;
        }
        proof {
            assert(ev.take(es.len() as int) =~= ev);
            let es2 = self.page_versions.entries@;
            assert forall|k: u64| #![auto] true implies (self.versions_map().contains_key(k) == old(self).versions_map().contains_key(k)) by {
                lemma_map_of_contains(es, k);
                lemma_map_of_contains(es2, k);
                if exists|j: int| 0 <= j < es.len() && #[trigger] es[j].0@ == k {
                    let j = choose|j: int| 0 <= j < es.len() && #[trigger] es[j].0@ == k;
                    assert(es2[j].0@ == k);
                }
                if exists|j: int| 0 <= j < es2.len() && #[trigger] es2[j].0@ == k {
                    let j = choose|j: int| 0 <= j < es2.len() && #[trigger] es2[j].0@ == k;
                    assert(es[j].0@ == k);
                }
            }
            assert forall|k: u64| self.versions_map().contains_key(k) implies #[trigger] self.versions_map()[k] == compacted(
                old(self).versions_map()[k],
            ) by {
                lemma_map_of_contains(es2, k);
                let j = choose|j: int| 0 <= j < es2.len() && #[trigger] es2[j].0@ == k;
                lemma_distinct_last_index(es2, j);
                assert(distinct_keys(es)) by {
                    assert forall|a: int, b: int| 0 <= a < es.len() && 0 <= b < es.len() && a != b implies es[a].0@ != es[b].0@ by {
                        assert(es2[a].0 == es[a].0 && es2[b].0 == es[b].0);
                    }
                }
                lemma_distinct_last_index(es, j);
            }
            assert(self.versions_map() =~= old(self).versions_map().map_values(|s: Seq<VersionId>| compacted(s)));
        }
        count
    }
}

} // verus!
