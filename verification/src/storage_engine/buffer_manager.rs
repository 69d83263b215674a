//! Buffer pool bookkeeping: which pages are cached, their pins and dirty
//! state, the replacement queue and its policies (LRU, clock, MRU, FIFO),
//! and the hit/miss statistics. Reading and writing pages is done by the
//! caller around these decisions.
use vstd::prelude::*;

use std::collections::VecDeque;
use std::time::Instant;

use crate::assoc_list::{AssocList, distinct_keys, lemma_distinct_last_index, lemma_map_of_contains, map_of};
use crate::seq_util::lemma_filter_take;
use crate::storage_engine::file_format::{Page, PageHeader, PageId, copy_range, page_checksum_input};
use crate::storage_engine::lib::{StorageConfig, StorageError, StorageResult, crc32, generate_timestamp, instant_now};

verus! {

/// `x + 1`, wrapping to 0 after the largest value.
pub open spec fn bumped(x: u64) -> u64 {
    if x == u64::MAX {
        0
    } else {
        (x + 1) as u64
    }
}

/// Buffer pool statistics
#[derive(Debug, Clone, Copy)]
pub struct BufferStats {
    /// Number of reads
    pub reads: u64,
    /// Number of writes
    pub writes: u64,
    /// Number of hits
    pub hits: u64,
    /// Number of misses
    pub misses: u64,
    /// Number of evictions
    pub evictions: u64,
}

impl Default for BufferStats {
    fn default() -> (r: Self)
        ensures
            r.reads == 0 && r.writes == 0 && r.hits == 0 && r.misses == 0 && r.evictions == 0,
    {
        Self::new()
    }
}

impl BufferStats {
    /// All counters at zero.
    pub open spec fn new_spec() -> BufferStats {
        BufferStats { reads: 0, writes: 0, hits: 0, misses: 0, evictions: 0 }
    }

    /// All counters at zero.
    pub fn new() -> (r: Self)
        ensures
            r.reads == 0 && r.writes == 0 && r.hits == 0 && r.misses == 0 && r.evictions == 0,
    {
        Self { reads: 0, writes: 0, hits: 0, misses: 0, evictions: 0 }
    }

    /// Count a read.
    pub fn inc_reads(&mut self)
        ensures
            *final(self) == (BufferStats { reads: bumped(old(self).reads), ..*old(self) }),
    {
        self.reads = self.reads.wrapping_add(1);
    }

    /// Count a write.
    pub fn inc_writes(&mut self)
        ensures
            *final(self) == (BufferStats { writes: bumped(old(self).writes), ..*old(self) }),
    {
        self.writes = self.writes.wrapping_add(1);
    }

    /// Count a hit.
    pub fn inc_hits(&mut self)
        ensures
            *final(self) == (BufferStats { hits: bumped(old(self).hits), ..*old(self) }),
    {
        self.hits = self.hits.wrapping_add(1);
    }

    /// Count a miss.
    pub fn inc_misses(&mut self)
        ensures
            *final(self) == (BufferStats { misses: bumped(old(self).misses), ..*old(self) }),
    {
        self.misses = self.misses.wrapping_add(1);
    }

    /// Count an eviction.
    pub fn inc_evictions(&mut self)
        ensures
            *final(self) == (BufferStats { evictions: bumped(old(self).evictions), ..*old(self) }),
    {
        self.evictions = self.evictions.wrapping_add(1);
    }
}

/// Replacement policy enum
#[derive(Debug, Clone, Copy, PartialEq, Eq, Structural)]
pub enum ReplacementPolicy {
    /// Least recently used
    LRU,
    /// Clock-sweep (approximated LRU)
    Clock,
    /// Most recently used
    MRU,
    /// First in, first out
    FIFO,
}

/// Represents a buffer that holds a cached page in memory
#[derive(Debug)]
pub struct Buffer {
    /// The cached page
    page: Page,
    /// Last time this buffer was accessed
    last_accessed: Instant,
    /// Whether the buffer is dirty (modified)
    is_dirty: bool,
    /// Number of pins (a pinned buffer cannot be evicted)
    pin_count: usize,
    /// Clock bit for Clock replacement algorithm
    clock_bit: bool,
    /// Insertion timestamp for FIFO policy
    insertion_time: u64,
}

/// Two pages with the same identifier, header and bytes.
pub open spec fn same_page(a: Page, b: Page) -> bool {
    &&& a.id == b.id
    &&& a.header == b.header
    &&& a.data@ == b.data@
}

/// A copy of a page, field by field.
fn copy_page(p: &Page) -> (r: Page)
    ensures
        same_page(r, *p),
{
    let header = PageHeader {
        page_type: p.header.page_type,
        version: p.header.version,
        ref_count: p.header.ref_count,
        checksum: p.header.checksum,
        data_size: p.header.data_size,
    };
    let data = copy_range(p.data.as_slice(), 0, p.data.len());
    assert(data@ =~= p.data@);
    Page { id: p.id, header, data }
}

impl Buffer {
    /// The cached page.
    pub closed spec fn page_of(&self) -> Page {
        self.page
    }

    /// Whether the buffer was modified since it was last written.
    pub closed spec fn dirty(&self) -> bool {
        self.is_dirty
    }

    /// The number of pins.
    pub closed spec fn pins(&self) -> nat {
        self.pin_count as nat
    }

    /// The clock bit.
    pub closed spec fn referenced(&self) -> bool {
        self.clock_bit
    }

    /// The buffer with its clock bit set to `b`.
    pub closed spec fn with_clock_bit(&self, b: bool) -> Buffer {
        Buffer { clock_bit: b, ..*self }
    }

    /// Whether two buffers agree on everything but the access time and clock bit.
    pub closed spec fn same_content(&self, other: Buffer) -> bool {
        &&& self.page == other.page
        &&& self.is_dirty == other.is_dirty
        &&& self.pin_count == other.pin_count
        &&& self.insertion_time == other.insertion_time
    }

    /// Create a new buffer: clean, unpinned, clock bit clear.
    fn new(page: Page) -> (r: Self)
        ensures
            r.page_of() == page,
            !r.dirty(),
            r.pins() == 0,
            !r.referenced(),
    {
        Self {
            page,
            last_accessed: instant_now(),
            is_dirty: false,
            pin_count: 0,
            clock_bit: false,
            insertion_time: generate_timestamp(),
        }
    }

    /// Get a reference to the page
    pub fn page(&self) -> (r: &Page)
        ensures
            *r == self.page_of(),
    {
        &self.page
    }

    /// Get a mutable reference to the page; the buffer becomes dirty.
    pub fn page_mut(&mut self) -> (r: &mut Page)
        ensures
            *r == old(self).page_of(),
            final(self).page_of() == *final(r),
            final(self).dirty(),
            final(self).pins() == old(self).pins(),
            final(self).referenced() == old(self).referenced(),
    {
        self.is_dirty = true;
        &mut self.page
    }

    /// Mark the buffer as accessed: access time now, clock bit set.
    fn mark_accessed(&mut self)
        ensures
            final(self).referenced(),
            final(self).same_content(*old(self)),
    {
        self.last_accessed = instant_now();
        self.clock_bit = true;
    }

    /// Clear the clock bit, giving its previous value.
    fn reset_clock_bit(&mut self) -> (r: bool)
        ensures
            r == old(self).referenced(),
            *final(self) == old(self).with_clock_bit(false),
    {
        let r = self.clock_bit;
        self.clock_bit = false;
        r
    }

    /// Check if the buffer can be evicted
    fn can_evict(&self) -> (r: bool)
        ensures
            r == (self.pins() == 0),
    {
        self.pin_count == 0
    }

    /// Pin the buffer (prevent eviction)
    fn pin(&mut self)
        requires
            old(self).pins() < usize::MAX,
        ensures
            final(self).pins() == old(self).pins() + 1,
            final(self).page_of() == old(self).page_of(),
            final(self).dirty() == old(self).dirty(),
            final(self).referenced() == old(self).referenced(),
    {
        self.pin_count = self.pin_count + 1;
    }

    /// Unpin the buffer; an unpinned buffer stays unpinned
    fn unpin(&mut self)
        ensures
            final(self).pins() == (if old(self).pins() > 0 { old(self).pins() - 1 } else { 0 }),
            final(self).page_of() == old(self).page_of(),
            final(self).dirty() == old(self).dirty(),
            final(self).referenced() == old(self).referenced(),
    {
        if self.pin_count > 0 {
            self.pin_count = self.pin_count - 1;
        }
    }

    /// Check if the buffer is dirty
    fn is_dirty(&self) -> (r: bool)
        ensures
            r == self.dirty(),
    {
        self.is_dirty
    }

    /// Mark the buffer as clean
    fn mark_clean(&mut self)
        ensures
            !final(self).dirty(),
            final(self).page_of() == old(self).page_of(),
            final(self).pins() == old(self).pins(),
            final(self).referenced() == old(self).referenced(),
    {
        self.is_dirty = false;
    }

    /// Get insertion time (for FIFO policy)
    fn get_insertion_time(&self) -> u64 {
        self.insertion_time
    }
}

/// `std::io::ErrorKind::WouldBlock`, for a page whose I/O is under way.
#[verifier::external_body]
fn would_block_kind() -> std::io::ErrorKind {
    std::io::ErrorKind::WouldBlock
}

/// Whether page `id` is cached in `b`.
pub open spec fn cached(b: Map<PageId, Buffer>) -> spec_fn(PageId) -> bool {
    |id: PageId| b.contains_key(id)
}

/// Whether page `id` is cached in `b` and unpinned.
pub open spec fn evictable(b: Map<PageId, Buffer>, id: PageId) -> bool {
    b.contains_key(id) && b[id].pins() == 0
}

/// Whether a queue entry is not page `id`.
pub open spec fn other_than(id: PageId) -> spec_fn(PageId) -> bool {
    |x: PageId| x != id
}

/// The queue without page `id`.
pub open spec fn without_page(q: Seq<PageId>, id: PageId) -> Seq<PageId> {
    q.filter(other_than(id))
}

/// The replacement queue after an access to cached page `id`: LRU moves it
/// to the back, MRU to the front, Clock and FIFO leave the queue as it is.
pub open spec fn touched_queue(policy: ReplacementPolicy, q: Seq<PageId>, id: PageId) -> Seq<PageId> {
    match policy {
        ReplacementPolicy::LRU => without_page(q, id).push(id),
        ReplacementPolicy::MRU => seq![id] + without_page(q, id),
        _ => q,
    }
}

/// The replacement queue after page `id` enters the pool: MRU puts it at
/// the front, the other policies at the back.
pub open spec fn enqueued(policy: ReplacementPolicy, q: Seq<PageId>, id: PageId) -> Seq<PageId> {
    match policy {
        ReplacementPolicy::MRU => seq![id] + q,
        _ => q.push(id),
    }
}

/// One pass over queue `q` from its front: entries whose page is not cached
/// are dropped, pinned ones go to the back, and the first unpinned cached
/// page is the victim, taken out of the queue. Without a victim every
/// cached page of the queue is pinned.
pub open spec fn queue_scan(q: Seq<PageId>, b: Map<PageId, Buffer>, victim: Option<PageId>, q2: Seq<PageId>) -> bool {
    match victim {
        Some(v) => exists|i: int|
            #![trigger q[i]]
            0 <= i < q.len() && q[i] == v && evictable(b, v) && (forall|j: int| 0 <= j < i ==> !evictable(b, #[trigger] q[j]))
                && q2 == q.subrange(i + 1, q.len() as int) + q.take(i).filter(cached(b)),
        None => (forall|j: int| 0 <= j < q.len() ==> !evictable(b, #[trigger] q[j])) && q2 == q.filter(cached(b)),
    }
}

/// Position `start + i` on a ring of `size` positions, for `start` and `i`
/// below `size`.
pub open spec fn ring(start: int, i: int, size: int) -> int {
    if start + i < size {
        start + i
    } else {
        start + i - size
    }
}

/// The clock sweep over queue `q` of `size` entries from position `start`,
/// at its `i`-th step: each cached unpinned page whose clock bit is set gets
/// it cleared; the first one whose bit is already clear is the victim, given
/// by its queue position. Also gives the buffers after the sweep.
pub open spec fn clock_sweep(q: Seq<PageId>, b: Map<PageId, Buffer>, start: int, i: nat, size: nat) -> (Option<int>, Map<PageId, Buffer>)
    decreases size - i,
{
    if i >= size {
        (None, b)
    } else {
        let pos = ring(start, i as int, size as int);
        let id = q[pos];
        if evictable(b, id) {
            if !b[id].referenced() {
                (Some(pos), b)
            } else {
                clock_sweep(q, b.insert(id, b[id].with_clock_bit(false)), start, i + 1, size)
            }
        } else {
            clock_sweep(q, b, start, i + 1, size)
        }
    }
}

/// A victim of the clock sweep is a cached, unpinned page of the queue,
/// whose clock bit is clear after the sweep.
pub proof fn lemma_clock_sweep_victim(q: Seq<PageId>, b: Map<PageId, Buffer>, start: int, i: nat, size: nat)
    requires
        size == q.len(),
        0 <= start < size,
    ensures
        clock_sweep(q, b, start, i, size).0 matches Some(pos) ==> 0 <= pos < size && evictable(
            clock_sweep(q, b, start, i, size).1,
            q[pos],
        ) && !clock_sweep(q, b, start, i, size).1[q[pos]].referenced(),
    decreases size - i,
{
    if i < size {
        let pos = ring(start, i as int, size as int);
        let id = q[pos];
        if evictable(b, id) {
            if b[id].referenced() {
                lemma_clock_sweep_victim(q, b.insert(id, b[id].with_clock_bit(false)), start, i + 1, size);
            }
        } else {
            lemma_clock_sweep_victim(q, b, start, i + 1, size);
        }
    }
}

/// Under MRU, a page just accessed is the next victim whenever it can be
/// evicted.
pub proof fn lemma_mru_evicts_latest_access(q: Seq<PageId>, b: Map<PageId, Buffer>, id: PageId, v: PageId, q2: Seq<PageId>)
    requires
        evictable(b, id),
        queue_scan(touched_queue(ReplacementPolicy::MRU, q, id), b, Some(v), q2),
    ensures
        v == id,
{
    let q1 = touched_queue(ReplacementPolicy::MRU, q, id);
    let i = choose|i: int|
        #![trigger q1[i]]
        0 <= i < q1.len() && q1[i] == v && evictable(b, v) && (forall|j: int| 0 <= j < i ==> !evictable(b, #[trigger] q1[j]))
            && q2 == q1.subrange(i + 1, q1.len() as int) + q1.take(i).filter(cached(b));
    if i > 0 {
        assert(q1[0] == id);
        assert(!evictable(b, q1[0]));
    }
}

/// Under LRU, a page just accessed is evicted only when no other page of
/// the queue can be.
pub proof fn lemma_lru_evicts_latest_access_last(q: Seq<PageId>, b: Map<PageId, Buffer>, id: PageId, q2: Seq<PageId>)
    requires
        queue_scan(touched_queue(ReplacementPolicy::LRU, q, id), b, Some(id), q2),
    ensures
        forall|k: int| 0 <= k < q.len() && q[k] != id ==> !evictable(b, #[trigger] q[k]),
{
    let q1 = touched_queue(ReplacementPolicy::LRU, q, id);
    let w = without_page(q, id);
    let i = choose|i: int|
        #![trigger q1[i]]
        0 <= i < q1.len() && q1[i] == id && evictable(b, id) && (forall|j: int| 0 <= j < i ==> !evictable(b, #[trigger] q1[j]))
            && q2 == q1.subrange(i + 1, q1.len() as int) + q1.take(i).filter(cached(b));
    if i < w.len() {
        q.lemma_filter_pred(other_than(id), i);
        assert(q1[i] == w[i]);
    }
    assert(i == w.len());
    assert forall|k: int| 0 <= k < q.len() && q[k] != id implies !evictable(b, #[trigger] q[k]) by {
        q.lemma_filter_contains(other_than(id), k);
        let j = choose|j: int| 0 <= j < w.len() && w[j] == q[k];
        assert(q1[j] == w[j]);
    }
}

/// BufferPool keeps the cached pages, the replacement queue and the
/// statistics, and decides hits, queue order and eviction victims.
pub struct BufferPool {
    /// Cached pages by ID
    buffers: AssocList<PageId, Buffer>,
    /// Replacement queue
    lru_queue: VecDeque<PageId>,
    /// Maximum number of buffers
    capacity: usize,
    /// Statistics
    stats: BufferStats,
    /// Pages that are currently being read or written
    pending_io: AssocList<PageId, ()>,
    /// Replacement policy to use
    policy: ReplacementPolicy,
    /// Clock hand position (for Clock replacement policy)
    clock_hand: usize,
    /// Maximum number of dirty pages before forced flush
    max_dirty_pages: usize,
    /// Whether a background writer runs
    bg_writer_running: bool,
}

impl BufferPool {
    /// The cached pages.
    pub closed spec fn pages(&self) -> Map<PageId, Buffer> {
        self.buffers.view_map()
    }

    /// The replacement queue.
    pub closed spec fn queue(&self) -> Seq<PageId> {
        self.lru_queue@
    }

    /// The pages with I/O under way.
    pub closed spec fn pending(&self) -> Set<PageId> {
        self.pending_io.view_map().dom()
    }

    /// The statistics.
    pub closed spec fn stats_view(&self) -> BufferStats {
        self.stats
    }

    /// The replacement policy.
    pub closed spec fn policy_view(&self) -> ReplacementPolicy {
        self.policy
    }

    /// The capacity.
    pub closed spec fn capacity_view(&self) -> nat {
        self.capacity as nat
    }

    /// The clock hand.
    pub closed spec fn hand(&self) -> nat {
        self.clock_hand as nat
    }

    /// Well-formedness: the page and pending tables have distinct keys.
    pub closed spec fn inv(&self) -> bool {
        self.buffers.wf() && self.pending_io.wf()
    }

    /// Whether `other` has the same capacity, policy and pending pages.
    pub closed spec fn same_setup(&self, other: BufferPool) -> bool {
        &&& self.capacity == other.capacity
        &&& self.policy == other.policy
        &&& self.pending_io.view_map().dom() == other.pending_io.view_map().dom()
        &&& self.max_dirty_pages == other.max_dirty_pages
    }

    /// Create a new, empty buffer pool using LRU replacement
    pub fn new(config: &StorageConfig) -> (r: Self)
        ensures
            r.inv(),
            r.pages() == Map::<PageId, Buffer>::empty(),
            r.queue() == Seq::<PageId>::empty(),
            r.pending() == Set::<PageId>::empty(),
            r.capacity_view() == config.buffer_pool_size,
            r.policy_view() == ReplacementPolicy::LRU,
            r.hand() == 0,
            r.stats_view() == BufferStats::new_spec(),
    {
        let r = Self {
            buffers: AssocList::new(),
            lru_queue: VecDeque::with_capacity(config.buffer_pool_size),
            capacity: config.buffer_pool_size,
            stats: BufferStats::new(),
            pending_io: AssocList::new(),
            policy: ReplacementPolicy::LRU,
            clock_hand: 0,
            max_dirty_pages: config.max_dirty_pages,
            bg_writer_running: false,
        };
        assert(r.pending() =~= Set::<PageId>::empty());
        r
    }

    /// Set the replacement policy
    pub fn set_policy(&mut self, policy: ReplacementPolicy)
        ensures
            final(self).policy_view() == policy,
            final(self).pages() == old(self).pages(),
            final(self).queue() == old(self).queue(),
            final(self).pending() == old(self).pending(),
            final(self).stats_view() == old(self).stats_view(),
            final(self).capacity_view() == old(self).capacity_view(),
            final(self).hand() == old(self).hand(),
            final(self).inv() == old(self).inv(),
    {
        self.policy = policy;
    }

    /// Get the number of buffers in the pool
    pub fn len(&self) -> (r: usize)
        requires
            self.inv(),
        ensures
            r == self.pages().len(),
    {
        self.buffers.len()
    }

    /// Check if the buffer pool is empty
    pub fn is_empty(&self) -> (r: bool)
        requires
            self.inv(),
        ensures
            r == (self.pages().len() == 0),
    {
        self.buffers.is_empty()
    }

    /// Check if the buffer pool contains a specific page
    pub fn contains_page(&self, page_id: PageId) -> (r: bool)
        requires
            self.inv(),
        ensures
            r == self.pages().contains_key(page_id),
    {
        self.buffers.contains_key(&page_id)
    }

    /// Get the capacity of the buffer pool
    pub fn capacity(&self) -> (r: usize)
        ensures
            r == self.capacity_view(),
    {
        self.capacity
    }

    /// Get the replacement policy
    pub fn policy(&self) -> (r: ReplacementPolicy)
        ensures
            r == self.policy_view(),
    {
        self.policy
    }

    /// Get buffer pool statistics: the counters, the number of cached pages
    /// and the capacity
    pub fn get_stats(&self) -> (r: (&BufferStats, usize, usize))
        requires
            self.inv(),
        ensures
            *r.0 == self.stats_view(),
            r.1 == self.pages().len(),
            r.2 == self.capacity_view(),
    {
        (&self.stats, self.buffers.len(), self.capacity)
    }

    /// The buffer of a cached page.
    pub fn get_buffer(&self, page_id: PageId) -> (r: Option<&Buffer>)
        requires
            self.inv(),
        ensures
            r is None <==> !self.pages().contains_key(page_id),
            r is Some ==> *r->0 == self.pages()[page_id],
    {
        self.buffers.get(&page_id)
    }

    /// The queue without page `id`, in the same order.
    fn queue_without(q: &VecDeque<PageId>, id: PageId) -> (r: VecDeque<PageId>)
        ensures
            r@ == without_page(q@, id),
    {
        let mut r: VecDeque<PageId> = VecDeque::new();
        let mut i: usize = 0;
        while i < q.len()
            invariant
                i <= q@.len(),
                r@ == q@.take(i as int).filter(other_than(id)),
            decreases q@.len() - i,
        {
            proof {
                lemma_filter_take(q@, i as int, other_than(id));
            }
            let x = q[i];
            assert(x == q@[i as int]);
            if x.0 != id.0 {
                r.push_back(x);
            }
            i = i + 1;
        }
        assert(q@.take(q@.len() as int) =~= q@);
        r
    }

    /// Set the clock bit and access time of a cached page.
    fn mark_page_accessed(&mut self, page_id: PageId)
        requires
            old(self).inv(),
            old(self).pages().contains_key(page_id),
        ensures
            final(self).inv(),
            final(self).pages().dom() == old(self).pages().dom(),
            final(self).pages()[page_id].referenced(),
            final(self).pages()[page_id].same_content(old(self).pages()[page_id]),
            forall|p: PageId| p != page_id ==> #[trigger] final(self).pages()[p] == old(self).pages()[p],
            final(self).queue() == old(self).queue(),
            final(self).same_setup(*old(self)),
            final(self).stats_view() == old(self).stats_view(),
            final(self).hand() == old(self).hand(),
    {
        match self.buffers.remove(&page_id) {
            Some(mut b) => {
                b.mark_accessed();
                self.buffers.insert(page_id, b);
                assert(self.pages().dom() =~= old(self).pages().dom());
            },
            None => {},
        }
    }

    /// The cache lookup of a page read: a cached page counts as a hit, its
    /// buffer is marked accessed and the queue is updated for the policy; an
    /// uncached page counts as a miss and nothing else changes. Both count
    /// as a read.
    pub fn touch_page(&mut self, page_id: PageId) -> (r: bool)
        requires
            old(self).inv(),
        ensures
            final(self).inv(),
            r == old(self).pages().contains_key(page_id),
            final(self).same_setup(*old(self)),
            final(self).hand() == old(self).hand(),
            r ==> {
                &&& final(self).queue() == touched_queue(old(self).policy_view(), old(self).queue(), page_id)
                &&& final(self).pages().dom() == old(self).pages().dom()
                &&& final(self).pages()[page_id].referenced()
                &&& final(self).pages()[page_id].same_content(old(self).pages()[page_id])
                &&& forall|p: PageId| p != page_id ==> #[trigger] final(self).pages()[p] == old(self).pages()[p]
                &&& final(self).stats_view() == (BufferStats {
                    hits: bumped(old(self).stats_view().hits),
                    reads: bumped(old(self).stats_view().reads),
                    ..old(self).stats_view()
                })
            },
            !r ==> {
                &&& final(self).queue() == old(self).queue()
                &&& final(self).pages() == old(self).pages()
                &&& final(self).stats_view() == (BufferStats {
                    misses: bumped(old(self).stats_view().misses),
                    reads: bumped(old(self).stats_view().reads),
                    ..old(self).stats_view()
                })
            },
    {
        if self.buffers.contains_key(&page_id) {
            match self.policy {
                ReplacementPolicy::LRU => {
                    let mut q = Self::queue_without(&self.lru_queue, page_id);
                    q.push_back(page_id);
                    self.lru_queue = q;
                },
                ReplacementPolicy::MRU => {
                    let mut q = Self::queue_without(&self.lru_queue, page_id);
                    q.push_front(page_id);
                    self.lru_queue = q;
                },
                ReplacementPolicy::Clock => {},
                ReplacementPolicy::FIFO => {},
            }
            self.mark_page_accessed(page_id);
            self.stats.inc_hits();
            self.stats.inc_reads();
            true
        } else {
            self.stats.inc_misses();
            self.stats.inc_reads();
            false
        }
    }

    /// Whether a page read can start: an error while I/O on the page is
    /// under way; otherwise whether the pool is full, so that a page must be
    /// evicted first.
    pub fn check_load(&self, page_id: PageId) -> (r: StorageResult<bool>)
        requires
            self.inv(),
        ensures
            self.pending().contains(page_id) ==> r matches Err(StorageError::Io(_)),
            !self.pending().contains(page_id) ==> r == Ok::<bool, StorageError>(self.pages().len() >= self.capacity_view()),
    {
        if self.pending_io.contains_key(&page_id) {
            return Err(crate::storage_engine::lib::io_error(would_block_kind(), "Page is already being read or written"));
        }
        Ok(self.buffers.len() >= self.capacity)
    }

    /// Record that I/O on a page is under way.
    pub fn begin_io(&mut self, page_id: PageId)
        requires
            old(self).inv(),
        ensures
            final(self).inv(),
            final(self).pending() == old(self).pending().insert(page_id),
            final(self).pages() == old(self).pages(),
            final(self).queue() == old(self).queue(),
            final(self).stats_view() == old(self).stats_view(),
            final(self).policy_view() == old(self).policy_view(),
            final(self).capacity_view() == old(self).capacity_view(),
            final(self).hand() == old(self).hand(),
    {
        self.pending_io.insert(page_id, ());
        assert(self.pending() =~= old(self).pending().insert(page_id));
    }

    /// Record that I/O on a page is over.
    pub fn end_io(&mut self, page_id: PageId)
        requires
            old(self).inv(),
        ensures
            final(self).inv(),
            final(self).pending() == old(self).pending().remove(page_id),
            final(self).pages() == old(self).pages(),
            final(self).queue() == old(self).queue(),
            final(self).stats_view() == old(self).stats_view(),
            final(self).policy_view() == old(self).policy_view(),
            final(self).capacity_view() == old(self).capacity_view(),
            final(self).hand() == old(self).hand(),
    {
        self.pending_io.remove(&page_id);
        assert(self.pending() =~= old(self).pending().remove(page_id));
    }

    /// Add a page read or allocated by the caller: it gets a clean, unpinned
    /// buffer and enters the queue as the policy places new pages.
    pub fn cache_page(&mut self, page: Page) -> (r: PageId)
        requires
            old(self).inv(),
        ensures
            final(self).inv(),
            r == page.id,
            final(self).pages().dom() == old(self).pages().dom().insert(page.id),
            same_page(final(self).pages()[page.id].page_of(), page),
            !final(self).pages()[page.id].dirty(),
            final(self).pages()[page.id].pins() == 0,
            !final(self).pages()[page.id].referenced(),
            forall|p: PageId| p != page.id ==> #[trigger] final(self).pages()[p] == old(self).pages()[p],
            final(self).queue() == enqueued(old(self).policy_view(), old(self).queue(), page.id),
            final(self).same_setup(*old(self)),
            final(self).stats_view() == old(self).stats_view(),
            final(self).hand() == old(self).hand(),
    {
        let page_id = page.id;
        let buffer = Buffer::new(page);
        self.buffers.insert(page_id, buffer);
        match self.policy {
            ReplacementPolicy::MRU => {
                self.lru_queue.push_front(page_id);
            },
            _ => {
                self.lru_queue.push_back(page_id);
            },
        }
        assert(self.pages().dom() =~= old(self).pages().dom().insert(page_id));
        page_id
    }

    /// One pass of the queue from its front (LRU, MRU and FIFO eviction):
    /// see `queue_scan`.
    fn scan_queue(&mut self) -> (r: Option<PageId>)
        requires
            old(self).inv(),
        ensures
            final(self).inv(),
            queue_scan(old(self).queue(), old(self).pages(), r, final(self).queue()),
            final(self).pages() == old(self).pages(),
            final(self).same_setup(*old(self)),
            final(self).stats_view() == old(self).stats_view(),
            final(self).hand() == old(self).hand(),
    {
        let ghost q = self.lru_queue@;
        let ghost b = self.pages();
        let n = self.lru_queue.len();
        let mut k: usize = 0;
        while k < n
            invariant
                k <= n,
                n == q.len(),
                self.inv(),
                self.pages() == b,
                self.same_setup(*old(self)),
                self.stats_view() == old(self).stats_view(),
                self.hand() == old(self).hand(),
                q == old(self).queue(),
                b == old(self).pages(),
                self.lru_queue@ == q.subrange(k as int, n as int) + q.take(k as int).filter(cached(b)),
                forall|j: int| 0 <= j < k ==> !evictable(b, #[trigger] q[j]),
            decreases n - k,
        {
            proof {
                lemma_filter_take(q, k as int, cached(b));
            }
            let ghost before = self.lru_queue@;
            assert(before[0] == q[k as int]);
            let id = match self.lru_queue.pop_front() {
                Some(x) => x,
                None => {
                    return None;
                },
            };
            assert(self.lru_queue@ =~= q.subrange(k + 1, n as int) + q.take(k as int).filter(cached(b)));
            let evict = match self.buffers.get(&id) {
                Some(buf) => {
                    if buf.can_evict() {
                        1u8
                    } else {
                        2u8
                    }
                },
                None => 0u8,
            };
            if evict == 1 {
                assert(queue_scan(q, b, Some(id), self.lru_queue@)) by {
                    assert(q[k as int] == id);
                }
                return Some(id);
            } else if evict == 2 {
                self.lru_queue.push_back(id);
                assert(self.lru_queue@ =~= q.subrange(k + 1, n as int) + q.take(k + 1).filter(cached(b)));
            } else {
                assert(self.lru_queue@ =~= q.subrange(k + 1, n as int) + q.take(k + 1).filter(cached(b)));
            }
            k = k + 1;
        }
        assert(q.take(n as int) =~= q);
        assert(self.lru_queue@ =~= q.filter(cached(b)));
        None
    }

    /// Clear the clock bit of a cached page.
    fn clear_clock_bit(&mut self, page_id: PageId)
        requires
            old(self).inv(),
            old(self).pages().contains_key(page_id),
        ensures
            final(self).inv(),
            final(self).pages() == old(self).pages().insert(page_id, old(self).pages()[page_id].with_clock_bit(false)),
            final(self).queue() == old(self).queue(),
            final(self).same_setup(*old(self)),
            final(self).stats_view() == old(self).stats_view(),
            final(self).hand() == old(self).hand(),
    {
        match self.buffers.remove(&page_id) {
            Some(mut b) => {
                b.reset_clock_bit();
                self.buffers.insert(page_id, b);
                assert(self.pages() =~= old(self).pages().insert(page_id, old(self).pages()[page_id].with_clock_bit(false)));
            },
            None => {},
        }
    }

    /// The clock sweep of Clock eviction over a non-empty queue, from the
    /// clock hand: see `clock_sweep`. The victim leaves the queue and the
    /// hand moves past it; without a victim the hand is back where it was.
    fn sweep_clock(&mut self) -> (r: Option<PageId>)
        requires
            old(self).inv(),
            old(self).queue().len() > 0,
        ensures
            final(self).inv(),
            ({
                let q = old(self).queue();
                let size = q.len();
                let start = old(self).hand() % size;
                let sweep = clock_sweep(q, old(self).pages(), start as int, 0, size);
                &&& final(self).pages() == sweep.1
                &&& match sweep.0 {
                    Some(pos) => {
                        &&& r == Some(q[pos])
                        &&& final(self).queue() == q.remove(pos)
                        &&& final(self).hand() == (if pos + 1 == size { 0 } else { pos + 1 })
                    },
                    None => {
                        &&& r is None
                        &&& final(self).queue() == q
                        &&& final(self).hand() == start
                    },
                }
            }),
            final(self).same_setup(*old(self)),
            final(self).stats_view() == old(self).stats_view(),
    {
        let ghost q = self.lru_queue@;
        let ghost b0 = self.pages();
        let size = self.lru_queue.len();
        let start = self.clock_hand % size;
        assert(start < size) by (nonlinear_arith)
            requires
                start == self.clock_hand % size,
                size > 0,
        ;
        let mut i: usize = 0;
        let mut pos: usize = start;
        while i < size
            invariant
                i <= size,
                size == q.len(),
                start < size,
                start == old(self).hand() % (size as nat),
                pos == ring(start as int, i as int, size as int),
                i > 0 ==> self.clock_hand == pos,
                i == 0 ==> self.clock_hand == old(self).hand(),
                self.inv(),
                self.lru_queue@ == q,
                q == old(self).queue(),
                b0 == old(self).pages(),
                clock_sweep(q, b0, start as int, 0, size as nat) == clock_sweep(q, self.pages(), start as int, i as nat, size as nat),
                self.same_setup(*old(self)),
                self.stats_view() == old(self).stats_view(),
            decreases size - i,
        {
            let ghost bi = self.pages();
            assert(0 <= pos < size);
            let id = self.lru_queue[pos];
            assert(id == q[pos as int]);
            let state = match self.buffers.get(&id) {
                Some(buf) => {
                    if !buf.can_evict() {
                        0u8
                    } else if buf.clock_bit {
                        1u8
                    } else {
                        2u8
                    }
                },
                None => 0u8,
            };
            let next: usize = if pos + 1 == size {
                0
            } else {
                pos + 1
            };
            if state == 2 {
                self.lru_queue.remove(pos);
                self.clock_hand = next;
                return Some(id);
            }
            if state == 1 {
                self.clear_clock_bit(id);
            }
            self.clock_hand = next;
            pos = next;
            i = i + 1;
        }
        None
    }

    /// Choose the page to evict under the replacement policy. LRU, MRU and
    /// FIFO scan the queue from its front (see `queue_scan`); Clock sweeps
    /// from its hand (see `clock_sweep`) and, finding nothing, falls back to
    /// the queue scan. The victim leaves the queue but stays cached, for
    /// the caller to write it back if dirty and then drop it. When every
    /// cached page of the queue is pinned the pool is full; Clock on an
    /// empty queue chooses nothing.
    pub fn select_victim(&mut self) -> (r: StorageResult<Option<PageId>>)
        requires
            old(self).inv(),
        ensures
            final(self).inv(),
            final(self).same_setup(*old(self)),
            final(self).stats_view() == old(self).stats_view(),
            r is Ok || r == Err::<Option<PageId>, StorageError>(StorageError::BufferPoolFull),
            r matches Ok(Some(v)) ==> evictable(final(self).pages(), v),
            old(self).policy_view() != ReplacementPolicy::Clock ==> {
                &&& final(self).pages() == old(self).pages()
                &&& final(self).hand() == old(self).hand()
                &&& r is Err <==> (forall|j: int| 0 <= j < old(self).queue().len() ==> !evictable(old(self).pages(), #[trigger] old(self).queue()[j]))
                &&& queue_scan(old(self).queue(), old(self).pages(), match r { Ok(v) => v, Err(_) => None }, final(self).queue())
            },
            old(self).policy_view() == ReplacementPolicy::Clock && old(self).queue().len() == 0 ==> {
                &&& r == Ok::<Option<PageId>, StorageError>(None)
                &&& *final(self) == *old(self)
            },
            old(self).policy_view() == ReplacementPolicy::Clock && old(self).queue().len() > 0 ==> ({
                let q = old(self).queue();
                let size = q.len();
                let start = old(self).hand() % size;
                let sweep = clock_sweep(q, old(self).pages(), start as int, 0, size);
                &&& final(self).pages() == sweep.1
                &&& match sweep.0 {
                    Some(pos) => {
                        &&& r == Ok::<Option<PageId>, StorageError>(Some(q[pos]))
                        &&& final(self).queue() == q.remove(pos)
                        &&& final(self).hand() == (if pos + 1 == size { 0 } else { pos + 1 })
                    },
                    None => {
                        &&& final(self).hand() == start
                        &&& r is Err <==> (forall|j: int| 0 <= j < q.len() ==> !evictable(sweep.1, #[trigger] q[j]))
                        &&& queue_scan(q, sweep.1, match r { Ok(v) => v, Err(_) => None }, final(self).queue())
                    },
                }
            }),
    {
        match self.policy {
            ReplacementPolicy::Clock => {
                if self.lru_queue.len() == 0 {
                    return Ok(None);
                }
                match self.sweep_clock() {
                    Some(id) => {
                        proof {
                            lemma_clock_sweep_victim(old(self).queue(), old(self).pages(), (old(self).hand() % old(self).queue().len()) as int, 0, old(self).queue().len());
                        }
                        Ok(Some(id))
                    },
                    None => match self.scan_queue() {
                        Some(id) => Ok(Some(id)),
                        None => Err(StorageError::BufferPoolFull),
                    },
                }
            },
            _ => match self.scan_queue() {
                Some(id) => Ok(Some(id)),
                None => Err(StorageError::BufferPoolFull),
            },
        }
    }

    /// A dirty victim's page, for the caller to write back before dropping
    /// it; the write counts in the statistics. A clean or uncached page
    /// gives nothing.
    pub fn victim_write_back(&mut self, page_id: PageId) -> (r: Option<Page>)
        requires
            old(self).inv(),
        ensures
            final(self).inv(),
            final(self).pages() == old(self).pages(),
            final(self).queue() == old(self).queue(),
            final(self).same_setup(*old(self)),
            final(self).hand() == old(self).hand(),
            old(self).pages().contains_key(page_id) && old(self).pages()[page_id].dirty() ==> {
                &&& r matches Some(p) && same_page(p, old(self).pages()[page_id].page_of())
                &&& final(self).stats_view() == (BufferStats { writes: bumped(old(self).stats_view().writes), ..old(self).stats_view() })
            },
            !(old(self).pages().contains_key(page_id) && old(self).pages()[page_id].dirty()) ==> {
                &&& r is None
                &&& final(self).stats_view() == old(self).stats_view()
            },
    {
        let copy = match self.buffers.get(&page_id) {
            Some(buf) => {
                if buf.is_dirty() {
                    Some(copy_page(&buf.page))
                } else {
                    None
                }
            },
            None => None,
        };
        if copy.is_some() {
            self.stats.inc_writes();
        }
        copy
    }

    /// Drop an evicted page from the pool; the eviction counts in the statistics.
    pub fn drop_page(&mut self, page_id: PageId)
        requires
            old(self).inv(),
        ensures
            final(self).inv(),
            final(self).pages() == old(self).pages().remove(page_id),
            final(self).queue() == old(self).queue(),
            final(self).same_setup(*old(self)),
            final(self).hand() == old(self).hand(),
            final(self).stats_view() == (BufferStats { evictions: bumped(old(self).stats_view().evictions), ..old(self).stats_view() }),
    {
        self.buffers.remove(&page_id);
        self.stats.inc_evictions();
    }

    /// Pin a cached page (prevent its eviction); an uncached page is left alone.
    pub fn pin_cached(&mut self, page_id: PageId)
        requires
            old(self).inv(),
            old(self).pages().contains_key(page_id) ==> old(self).pages()[page_id].pins() < usize::MAX,
        ensures
            final(self).inv(),
            final(self).pages().dom() == old(self).pages().dom(),
            old(self).pages().contains_key(page_id) ==> {
                &&& final(self).pages()[page_id].pins() == old(self).pages()[page_id].pins() + 1
                &&& final(self).pages()[page_id].dirty() == old(self).pages()[page_id].dirty()
                &&& final(self).pages()[page_id].page_of() == old(self).pages()[page_id].page_of()
            },
            forall|p: PageId| p != page_id ==> #[trigger] final(self).pages()[p] == old(self).pages()[p],
            !old(self).pages().contains_key(page_id) ==> final(self).pages() == old(self).pages(),
            final(self).queue() == old(self).queue(),
            final(self).same_setup(*old(self)),
            final(self).stats_view() == old(self).stats_view(),
            final(self).hand() == old(self).hand(),
    {
        match self.buffers.remove(&page_id) {
            Some(mut b) => {
                b.pin();
                self.buffers.insert(page_id, b);
                assert(self.pages().dom() =~= old(self).pages().dom());
            },
            None => {},
        }
    }

    /// Unpin a page in memory; an uncached page is an error
    pub fn unpin_page(&mut self, page_id: PageId) -> (r: StorageResult<()>)
        requires
            old(self).inv(),
        ensures
            final(self).inv(),
            !old(self).pages().contains_key(page_id) ==> r == Err::<(), StorageError>(StorageError::PageNotFound(page_id.0))
                && final(self).pages() == old(self).pages(),
            old(self).pages().contains_key(page_id) ==> {
                &&& r is Ok
                &&& final(self).pages().dom() == old(self).pages().dom()
                &&& final(self).pages()[page_id].pins() == (if old(self).pages()[page_id].pins() > 0 {
                    old(self).pages()[page_id].pins() - 1
                } else {
                    0
                })
                &&& final(self).pages()[page_id].dirty() == old(self).pages()[page_id].dirty()
                &&& final(self).pages()[page_id].page_of() == old(self).pages()[page_id].page_of()
            },
            forall|p: PageId| p != page_id ==> #[trigger] final(self).pages()[p] == old(self).pages()[p],
            final(self).queue() == old(self).queue(),
            final(self).same_setup(*old(self)),
            final(self).stats_view() == old(self).stats_view(),
            final(self).hand() == old(self).hand(),
    {
        match self.buffers.remove(&page_id) {
            Some(mut b) => {
                b.unpin();
                self.buffers.insert(page_id, b);
                assert(self.pages().dom() =~= old(self).pages().dom());
                Ok(())
            },
            None => Err(StorageError::PageNotFound(page_id.0)),
        }
    }

    /// Replace the data of a cached page and update its checksum; the
    /// buffer becomes dirty. An uncached page is an error.
    pub fn update_page_data(&mut self, page_id: PageId, new_data: Vec<u8>) -> (r: StorageResult<()>)
        requires
            old(self).inv(),
        ensures
            final(self).inv(),
            !old(self).pages().contains_key(page_id) ==> r == Err::<(), StorageError>(StorageError::PageNotFound(page_id.0))
                && final(self).pages() == old(self).pages(),
            old(self).pages().contains_key(page_id) ==> {
                let before = old(self).pages()[page_id];
                let after = final(self).pages()[page_id];
                &&& r is Ok
                &&& final(self).pages().dom() == old(self).pages().dom()
                &&& after.dirty()
                &&& after.pins() == before.pins()
                &&& after.page_of().id == before.page_of().id
                &&& after.page_of().data@ == new_data@
                &&& after.page_of().header.page_type == before.page_of().header.page_type
                &&& after.page_of().header.version == before.page_of().header.version
                &&& after.page_of().header.ref_count == before.page_of().header.ref_count
                &&& after.page_of().header.data_size == before.page_of().header.data_size
                &&& after.page_of().header.checksum == crc32(page_checksum_input(
                    Page { data: new_data, ..before.page_of() },
                ))
            },
            forall|p: PageId| p != page_id ==> #[trigger] final(self).pages()[p] == old(self).pages()[p],
            final(self).queue() == old(self).queue(),
            final(self).same_setup(*old(self)),
            final(self).stats_view() == old(self).stats_view(),
            final(self).hand() == old(self).hand(),
    {
        match self.buffers.remove(&page_id) {
            Some(mut b) => {
                let ghost before = b;
                {
                    let page = b.page_mut();
                    page.data = new_data;
                    page.update_checksum();
                }
                self.buffers.insert(page_id, b);
                assert(self.pages().dom() =~= old(self).pages().dom());
                Ok(())
            },
            None => Err(StorageError::PageNotFound(page_id.0)),
        }
    }

    /// Start writing a cached page back: an uncached page is an error, a
    /// clean page needs no write; a dirty page is handed out with its
    /// checksum updated, its I/O is marked under way and the write counts
    /// in the statistics.
    pub fn begin_flush(&mut self, page_id: PageId) -> (r: StorageResult<Option<Page>>)
        requires
            old(self).inv(),
        ensures
            final(self).inv(),
            final(self).pages() == old(self).pages(),
            final(self).queue() == old(self).queue(),
            final(self).hand() == old(self).hand(),
            final(self).policy_view() == old(self).policy_view(),
            final(self).capacity_view() == old(self).capacity_view(),
            !old(self).pages().contains_key(page_id) ==> r == Err::<Option<Page>, StorageError>(
                StorageError::PageNotFound(page_id.0),
            ) && *final(self) == *old(self),
            old(self).pages().contains_key(page_id) && !old(self).pages()[page_id].dirty() ==> r == Ok::<
                Option<Page>,
                StorageError,
            >(None) && *final(self) == *old(self),
            old(self).pages().contains_key(page_id) && old(self).pages()[page_id].dirty() ==> {
                let p = old(self).pages()[page_id].page_of();
                &&& r matches Ok(Some(c)) && c.id == p.id && c.data@ == p.data@ && c.header == (PageHeader {
                    checksum: crc32(page_checksum_input(p)),
                    ..p.header
                })
                &&& final(self).pending() == old(self).pending().insert(page_id)
                &&& final(self).stats_view() == (BufferStats { writes: bumped(old(self).stats_view().writes), ..old(self).stats_view() })
            },
    {
        let copy = match self.buffers.get(&page_id) {
            Some(buf) => {
                if buf.is_dirty() {
                    Some(copy_page(&buf.page))
                } else {
                    return Ok(None);
                }
            },
            None => {
                return Err(StorageError::PageNotFound(page_id.0));
            },
        };
        match copy {
            Some(mut c) => {
                self.stats.inc_writes();
                self.pending_io.insert(page_id, ());
                assert(self.pending() =~= old(self).pending().insert(page_id));
                let ghost c0 = c;
                assert(page_checksum_input(c0) =~= page_checksum_input(old(self).pages()[page_id].page_of()));
                c.update_checksum();
                Ok(Some(c))
            },
            None => Ok(None),
        }
    }

    /// Finish writing a page back: its I/O is over, and the buffer becomes
    /// clean when the write succeeded.
    pub fn end_flush(&mut self, page_id: PageId, written: bool)
        requires
            old(self).inv(),
        ensures
            final(self).inv(),
            final(self).pending() == old(self).pending().remove(page_id),
            final(self).pages().dom() == old(self).pages().dom(),
            written && old(self).pages().contains_key(page_id) ==> {
                &&& !final(self).pages()[page_id].dirty()
                &&& final(self).pages()[page_id].pins() == old(self).pages()[page_id].pins()
                &&& final(self).pages()[page_id].page_of() == old(self).pages()[page_id].page_of()
            },
            !written ==> final(self).pages() == old(self).pages(),
            forall|p: PageId| p != page_id ==> #[trigger] final(self).pages()[p] == old(self).pages()[p],
            final(self).queue() == old(self).queue(),
            final(self).stats_view() == old(self).stats_view(),
            final(self).policy_view() == old(self).policy_view(),
            final(self).capacity_view() == old(self).capacity_view(),
            final(self).hand() == old(self).hand(),
    {
        self.pending_io.remove(&page_id);
        assert(self.pending() =~= old(self).pending().remove(page_id));
        if written {
            match self.buffers.remove(&page_id) {
                Some(mut b) => {
                    b.mark_clean();
                    self.buffers.insert(page_id, b);
                    assert(self.pages().dom() =~= old(self).pages().dom());
                },
                None => {},
            }
        }
    }

    /// The cached pages that are dirty, each once.
    pub fn dirty_page_ids(&self) -> (r: Vec<PageId>)
        requires
            self.inv(),
        ensures
            r@.no_duplicates(),
            forall|p: PageId| #[trigger] r@.contains(p) ==> self.pages().contains_key(p) && self.pages()[p].dirty(),
            forall|p: PageId| self.pages().contains_key(p) && #[trigger] self.pages()[p].dirty() ==> r@.contains(p),
    {
        let mut r: Vec<PageId> = Vec::new();
        let mut i: usize = 0;
        let ghost es = self.buffers.entries@;
        while i < self.buffers.entries.len()
            invariant
                i <= es.len(),
                es == self.buffers.entries@,
                self.inv(),
                r@.no_duplicates(),
                forall|p: PageId| r@.contains(p) <==> exists|j: int| 0 <= j < i && es[j].0 == p && #[trigger] es[j].1.dirty(),
            decreases es.len() - i,
        {
            let entry = &self.buffers.entries[i];
            let ghost before = r@;
            if entry.1.is_dirty() {
                proof {
                    assert(distinct_keys(es));
                    assert forall|p: PageId| before.contains(p) implies p != es[i as int].0 by {
                        let j = choose|j: int| 0 <= j < i && es[j].0 == p && #[trigger] es[j].1.dirty();
                        assert(es[j].0@ != es[i as int].0@);
                    }
                }
                r.push(entry.0);
                proof {
                    assert forall|a: int, b: int| 0 <= a < r@.len() && 0 <= b < r@.len() && a != b implies r@[a] != r@[b] by {
                        if a < before.len() && b < before.len() {
                            assert(before[a] != before[b]);
                        } else if a < before.len() {
                            assert(before.contains(r@[a]));
                        } else {
                            assert(before.contains(r@[b]));
                        }
                    }
                    assert forall|p: PageId| r@.contains(p) <==> exists|j: int| 0 <= j < i + 1 && es[j].0 == p && #[trigger] es[j].1.dirty() by {
                        if r@.contains(p) {
                            let k = choose|k: int| 0 <= k < r@.len() && r@[k] == p;
                            if k < before.len() {
                                assert(before.contains(p));
                                let j = choose|j: int| 0 <= j < i && es[j].0 == p && #[trigger] es[j].1.dirty();
                                assert(0 <= j < i + 1 && es[j].0 == p && es[j].1.dirty());
                            } else {
                                assert(es[i as int].1.dirty());
                            }
                        }
                        if exists|j: int| 0 <= j < i + 1 && es[j].0 == p && #[trigger] es[j].1.dirty() {
                            let j = choose|j: int| 0 <= j < i + 1 && es[j].0 == p && #[trigger] es[j].1.dirty();
                            if j < i {
                                assert(before.contains(p));
                                let k = choose|k: int| 0 <= k < before.len() && before[k] == p;
                                assert(r@[k] == p);
                            } else {
                                assert(r@[before.len() as int] == p);
                            }
                        }
                    }
                }
            } else {
                proof {
                    assert forall|p: PageId| r@.contains(p) <==> exists|j: int| 0 <= j < i + 1 && es[j].0 == p && #[trigger] es[j].1.dirty() by {
                        if r@.contains(p) {
                            let j = choose|j: int| 0 <= j < i && es[j].0 == p && #[trigger] es[j].1.dirty();
                            assert(0 <= j < i + 1 && es[j].0 == p && es[j].1.dirty());
                        }
                        if exists|j: int| 0 <= j < i + 1 && es[j].0 == p && #[trigger] es[j].1.dirty() {
                            let j = choose|j: int| 0 <= j < i + 1 && es[j].0 == p && #[trigger] es[j].1.dirty();
                            assert(j != i);
                        }
                    }
                }
            }
            i = i + 1;
        }
        proof {
            assert forall|p: PageId| #![trigger r@.contains(p)] #![trigger self.pages()[p]] r@.contains(p) <==> self.pages().contains_key(p) && self.pages()[p].dirty() by {
                lemma_map_of_contains(es, p);
                if self.pages().contains_key(p) {
                    let j = choose|j: int| 0 <= j < es.len() && #[trigger] es[j].0@ == p;
                    lemma_distinct_last_index(es, j);
                    if self.pages()[p].dirty() {
                        assert(es[j].1.dirty());
                    }
                }
                if r@.contains(p) {
                    assert(exists|j: int| 0 <= j < i && es[j].0 == p && #[trigger] es[j].1.dirty());
                    let j = choose|j: int| 0 <= j < i && es[j].0 == p && #[trigger] es[j].1.dirty();
                    lemma_distinct_last_index(es, j);
                    assert(es[j].0@ == p);
                    assert(self.buffers.view_map() == map_of(es));
                    assert(self.pages().contains_key(p));
                }
            }
        }
        r
    }

    /// Empty the pool: no cached page, an empty queue, no I/O under way.
    pub fn clear_all(&mut self)
        ensures
            final(self).inv(),
            final(self).pages() == Map::<PageId, Buffer>::empty(),
            final(self).queue() == Seq::<PageId>::empty(),
            final(self).pending() == Set::<PageId>::empty(),
            final(self).stats_view() == old(self).stats_view(),
            final(self).policy_view() == old(self).policy_view(),
            final(self).capacity_view() == old(self).capacity_view(),
            final(self).hand() == old(self).hand(),
    {
        self.buffers = AssocList::new();
        self.lru_queue.clear();
        self.pending_io = AssocList::new();
        assert(self.pending() =~= Set::<PageId>::empty());
    }
}

} // verus!
