use bytes::BytesMut;
use crossbeam_queue::SegQueue;
use memmap::MmapMut;
use vstd::arithmetic::power2::lemma2_to64;
use vstd::arithmetic::power2::lemma_pow2_pos;
use vstd::arithmetic::power2::lemma_pow2_strictly_increases;
use vstd::arithmetic::power2::pow2;
use vstd::prelude::*;

use crate::direct::bytes_mut_new;
use crate::direct::bytes_mut_resize;
use crate::direct::DirectBuf;

verus! {

/// A source of buffers of one size.
pub trait BlockAllocator<'a, T: DirectBuf> {
    /// Number of bytes in every buffer that the allocator hands out. An
    /// allocator that does not say is taken to hand out empty buffers.
    open spec fn block_len(&self) -> nat {
        0
    }

    /// Hands out one buffer.
    fn allocate(&'a self) -> (b: T)
        ensures
            b.contents().len() == self.block_len(),
    ;
}

/// An allocator that takes each buffer from the heap: `2^buf_size` bytes,
/// all zero.
pub struct SystemMemPool {
    buf_size: u8,
}

impl SystemMemPool {
    #[verifier::type_invariant]
    spec fn inv(&self) -> bool {
        self.buf_size <= 30
    }

    /// The base-2 logarithm of the size of the buffers.
    pub closed spec fn buf_size_spec(&self) -> nat {
        self.buf_size as nat
    }

    /// An allocator of buffers of `2^buf_size` bytes; none where `buf_size`
    /// is over 30.
    pub fn new(buf_size: usize) -> (r: Option<SystemMemPool>)
        ensures
            buf_size <= 30 ==> r is Some && r->0.buf_size_spec() == buf_size,
            buf_size > 30 ==> r is None,
    {
        if buf_size <= 30 {
            Some(SystemMemPool { buf_size: buf_size as u8 })
        } else {
            None
        }
    }

    /// The number of bytes in each buffer.
    pub fn block_len(&self) -> (n: usize)
        ensures
            n == vstd::arithmetic::power2::pow2(self.buf_size_spec()),
            0 < n <= 0x4000_0000,
    {
        proof {
            use_type_invariant(self);
        }
        let k: u8 = self.buf_size;
        let n: u32 = 1u32 << (k as u32);
        proof {
            vstd::arithmetic::power2::lemma2_to64();
            vstd::arithmetic::power2::lemma_pow2_pos(k as nat);
            if k < 30 {
                vstd::arithmetic::power2::lemma_pow2_strictly_increases(k as nat, 30);
            }
            vstd::bits::lemma_u32_shl_is_mul(1u32, k as u32);
        }
        n as usize
    }
}

impl<'a> BlockAllocator<'a, BytesMut> for SystemMemPool {
    open spec fn block_len(&self) -> nat {
        pow2(self.buf_size_spec())
    }

    fn allocate(&'a self) -> (b: BytesMut)
        ensures
            b.contents() == Seq::new(
                vstd::arithmetic::power2::pow2(self.buf_size_spec()),
                |i: int| 0u8,
            ),
    {
        let n = self.block_len();
        let mut b = bytes_mut_new();
        bytes_mut_resize(&mut b, n, 0);
        assert(b.contents() =~= Seq::new(n as nat, |i: int| 0u8));
        b
    }
}


/// How a pool of slabs is laid out.
#[derive(Clone, Copy, Debug)]
pub struct GlobalMemPoolSettings {
    /// Base-2 logarithm of the bytes in a slab.
    pub buf_size: usize,
    /// Number of slabs in a page.
    pub page_entries: usize,
    /// How many pages may be in the making at one time.
    pub concurrent_allocation_limit: u64,
}

impl GlobalMemPoolSettings {
    /// A slab has room for its count of owners, which takes four bytes, and a
    /// page is short enough for its length to be counted.
    pub open spec fn valid(&self) -> bool {
        &&& 2 <= self.buf_size <= 30
        &&& 1 <= self.page_entries
        &&& self.page_entries * pow2(self.buf_size as nat) <= 0x7fff_ffff
    }

    /// Whether the settings are valid.
    pub fn is_valid(&self) -> (r: bool)
        ensures
            r == self.valid(),
    {
        if self.buf_size < 2 || self.buf_size > 30 || self.page_entries < 1 {
            return false;
        }
        let slab: u64 = 1u64 << (self.buf_size as u64);
        proof {
            lemma2_to64();
            lemma_pow2_pos(self.buf_size as nat);
            if self.buf_size < 30 {
                lemma_pow2_strictly_increases(self.buf_size as nat, 30);
            }
            vstd::bits::lemma_u64_shl_is_mul(1u64, self.buf_size as u64);
        }
        let most: u64 = 0x7fff_ffff / slab;
        proof {
            let pe = self.page_entries as int;
            let sl = slab as int;
            assert(pe <= most ==> pe * sl <= 0x7fff_ffff) by (nonlinear_arith)
                requires
                    sl > 0,
                    most == 0x7fff_ffffint / sl,
            ;
            assert(pe > most ==> pe * sl > 0x7fff_ffff) by (nonlinear_arith)
                requires
                    sl > 0,
                    most == 0x7fff_ffffint / sl,
            ;
        }
        self.page_entries as u64 <= most
    }

    /// Number of bytes in a slab.
    pub fn slab_len(&self) -> (n: usize)
        requires
            self.valid(),
        ensures
            n == pow2(self.buf_size as nat),
            4 <= n <= 0x4000_0000,
    {
        proof {
            lemma2_to64();
            lemma_pow2_pos(self.buf_size as nat);
            if self.buf_size < 30 {
                lemma_pow2_strictly_increases(self.buf_size as nat, 30);
            }
            if self.buf_size > 2 {
                lemma_pow2_strictly_increases(2, self.buf_size as nat);
            }
            vstd::bits::lemma_u64_shl_is_mul(1u64, self.buf_size as u64);
        }
        (1u64 << (self.buf_size as u64)) as usize
    }

    /// Number of bytes of a slab that a part can use: all but the four that
    /// hold the count of its owners.
    pub fn realsize(&self) -> (n: usize)
        requires
            self.valid(),
        ensures
            n == pow2(self.buf_size as nat) - 4,
    {
        self.slab_len() - 4
    }

    /// Number of bytes in a page.
    pub fn page_len(&self) -> (n: usize)
        requires
            self.valid(),
        ensures
            n == self.page_entries * pow2(self.buf_size as nat),
    {
        let slab = self.slab_len();
        proof {
            let pe = self.page_entries as int;
            let sl = slab as int;
            assert(0 <= pe * sl);
        }
        self.page_entries * slab
    }

    /// The page that slab `slab` lies in, counting pages in the order in which
    /// they were made, and which slab of that page it is.
    pub fn locate(&self, slab: usize) -> (r: (usize, usize))
        requires
            self.valid(),
        ensures
            r.0 == slab as int / self.page_entries as int,
            r.1 == slab as int % self.page_entries as int,
            r.1 < self.page_entries,
            slab == r.0 * self.page_entries + r.1,
    {
        proof {
            vstd::arithmetic::div_mod::lemma_fundamental_div_mod(
                slab as int,
                self.page_entries as int,
            );
            vstd::arithmetic::div_mod::lemma_mod_pos_bound(slab as int, self.page_entries as int);
            vstd::arithmetic::mul::lemma_mul_is_commutative(
                self.page_entries as int,
                slab as int / self.page_entries as int,
            );
        }
        (slab / self.page_entries, slab % self.page_entries)
    }

    /// Where slab `itr` of a page starts, in bytes from the start of the page.
    pub fn slab_offset(&self, itr: usize) -> (n: usize)
        requires
            self.valid(),
            itr < self.page_entries,
        ensures
            n == itr * pow2(self.buf_size as nat),
            n + pow2(self.buf_size as nat) <= self.page_entries * pow2(self.buf_size as nat),
    {
        let slab = self.slab_len();
        proof {
            let pe = self.page_entries as int;
            let it = itr as int;
            let sl = slab as int;
            assert(it * sl + sl <= pe * sl) by (nonlinear_arith)
                requires
                    0 <= it < pe,
                    sl > 0,
            ;
            assert(0 <= it * sl) by (nonlinear_arith)
                requires
                    0 <= it,
                    sl > 0,
            ;
        }
        itr * slab
    }
}

/// The free slabs that one thread keeps for itself, up to a fixed number.
pub struct TLMemPool {
    pub cache: Vec<usize>,
    pub limit: usize,
}

impl TLMemPool {
    /// An empty cache with room for `limit` slabs.
    pub fn new(limit: usize) -> (r: TLMemPool)
        ensures
            r.cache@ == Seq::<usize>::empty(),
            r.limit == limit,
    {
        TLMemPool { cache: Vec::new(), limit }
    }

    /// Puts a slab into the cache if there is room; says whether it did.
    pub fn try_push(&mut self, slab: usize) -> (r: bool)
        ensures
            final(self).limit == old(self).limit,
            r == (old(self).cache@.len() < old(self).limit),
            r ==> final(self).cache@ == old(self).cache@.push(slab),
            !r ==> final(self).cache@ == old(self).cache@,
    {
        if self.cache.len() < self.limit {
            self.cache.push(slab);
            true
        } else {
            false
        }
    }

    /// Takes the slab cached last out of the cache.
    pub fn pop(&mut self) -> (r: Option<usize>)
        ensures
            final(self).limit == old(self).limit,
            old(self).cache@.len() == 0 ==> r is None && final(self).cache@ == old(self).cache@,
            old(self).cache@.len() > 0 ==> r == Some(old(self).cache@.last()) && final(self).cache@ == old(self).cache@.drop_last(),
    {
        self.cache.pop()
    }
}

/// `crossbeam_queue::SegQueue`: an unbounded queue, opaque.
#[verifier::external_type_specification]
#[verifier::external_body]
#[verifier::reject_recursive_types(T)]
pub struct ExSegQueue<T>(crossbeam_queue::SegQueue<T>);

/// The slabs in a `crossbeam_queue::SegQueue`, the one pushed first at the
/// front.
pub uninterp spec fn queue_items(q: SegQueue<usize>) -> Seq<usize>;

/// `SegQueue::new`: an empty queue.
#[verifier::external_body]
fn queue_new() -> (q: SegQueue<usize>)
    ensures
        queue_items(q) == Seq::<usize>::empty(),
{
    SegQueue::new()
}

/// `SegQueue::push`, called by the only holder of the queue: the value goes
/// to the back.
#[verifier::external_body]
fn queue_push(q: &mut SegQueue<usize>, value: usize)
    ensures
        queue_items(*final(q)) == queue_items(*old(q)).push(value),
{
    q.push(value)
}

/// `SegQueue::pop`, called by the only holder of the queue: the value at the
/// front leaves; an empty queue gives none and stays empty.
#[verifier::external_body]
fn queue_pop(q: &mut SegQueue<usize>) -> (r: Option<usize>)
    ensures
        queue_items(*old(q)).len() == 0 ==> r is None && queue_items(*final(q)) == queue_items(
            *old(q),
        ),
        queue_items(*old(q)).len() > 0 ==> r == Some(queue_items(*old(q))[0]) && queue_items(
            *final(q),
        ) == queue_items(*old(q)).skip(1),
{
    q.pop().ok()
}

/// A window into a slab: where it starts, in bytes from the start of the
/// slab, and how long it is.
#[derive(Clone, Copy, Debug, PartialEq, Eq)]
pub struct Slice {
    pub ptr: usize,
    pub len: usize,
}

/// A share in a slab: the slab, and the window of it that the share covers.
/// The slab stays out of the free pool as long as any share in it is held.
#[derive(Debug)]
pub struct Part {
    parent_slice: usize,
    data: Slice,
}

/// What a pool answers to a request for a part.
#[derive(Debug)]
pub enum Allocation {
    /// A part that covers the usable bytes of a free slab.
    Part(Part),
    /// No slab is free: a page of so many bytes is to be mapped, and then
    /// [`GlobalMemPool::allocate_mapped`] to be called.
    NeedPage { len: usize },
    /// No slab is free, and as many pages as may be are in the making: the
    /// request is to be made again later.
    Busy,
}

/// What the shared pool answers to a request for a slab.
#[derive(Debug, Clone, Copy, PartialEq, Eq)]
pub enum GlobalStep {
    /// A free slab.
    Slab(usize),
    /// A page of so many bytes is to be mapped.
    NeedPage { len: usize },
    /// The request is to be made again later.
    Busy,
}

/// A pool of slabs of one size, which come in pages. It keeps, for every slab
/// ever made, the count of the parts that share it, and the slabs that no
/// part shares in a queue. One holder works on it at a time.
pub struct GlobalMemPool {
    memory: SegQueue<usize>,
    settings: GlobalMemPoolSettings,
    allocs: u64,
    refcounts: Vec<u32>,
    pages: Vec<MmapMut>,
}

/// Why a pool gave no part.
#[derive(Debug, Clone, Copy, PartialEq, Eq)]
pub enum AllocError {
    /// No slab is free, and as many pages as may be are in the making.
    Busy,
    /// No slab is free, and the system did not map a page.
    MapFailed,
    /// No slab is free, and the slabs of one more page could not be numbered.
    Exhausted,
}

/// `memmap::MmapMut`: a mapping of memory that can be written, opaque.
#[verifier::external_type_specification]
#[verifier::external_body]
pub struct ExMmapMut(memmap::MmapMut);

/// The number of bytes that a `memmap::MmapMut` maps: the length that it was
/// made with.
pub uninterp spec fn mapping_len(m: MmapMut) -> nat;

/// `MmapMut::map_anon`: asks the system for a mapping of `len` bytes that no
/// file backs; none where the system refuses. A mapping that is made has the
/// length asked for.
#[verifier::external_body]
fn map_anon(len: usize) -> (r: Option<MmapMut>)
    ensures
        r matches Some(m) ==> mapping_len(m) == len,
{
    MmapMut::map_anon(len).ok()
}

/// `<MmapMut as Deref>::deref`, then `len` of the slice: the number of bytes
/// that the mapping maps.
#[verifier::external_body]
fn mapping_length(m: &MmapMut) -> (n: usize)
    ensures
        n == mapping_len(*m),
{
    m.len()
}

/// `<MmapMut as Deref>::deref`, then `as_ptr` of the slice: the address at
/// which the mapping starts, as a number.
#[verifier::external_body]
fn mapping_address(m: &MmapMut) -> (a: usize) {
    m.as_ptr() as usize
}

/// The counts of the slabs of a page that has just been made: one share in
/// the first slab, which is handed out, and none in the others.
pub open spec fn fresh_counts(page_entries: usize) -> Seq<u32> {
    Seq::new(
        page_entries as nat,
        |i: int|
            if i == 0 {
                1u32
            } else {
                0u32
            },
    )
}

/// The slabs of a page that has just been made, but for the first, which is
/// handed out; `first` is the number of the first.
pub open spec fn fresh_slabs(first: usize, page_entries: usize) -> Seq<usize> {
    Seq::new((page_entries - 1) as nat, |i: int| (first + 1 + i) as usize)
}

/// The slabs in a sequence are all different.
pub open spec fn distinct(s: Seq<usize>) -> bool {
    forall|i: int, j: int| 0 <= i < j < s.len() ==> s[i] != s[j]
}

impl GlobalMemPool {
    /// The slabs in the shared queue, the one queued first at the front.
    pub closed spec fn queued(&self) -> Seq<usize> {
        queue_items(self.memory)
    }

    /// The count of the parts that share each slab ever made.
    pub closed spec fn counts(&self) -> Seq<u32> {
        self.refcounts@
    }

    /// Number of pages in the making.
    pub closed spec fn in_flight(&self) -> u64 {
        self.allocs
    }

    /// The layout of the pool.
    pub closed spec fn settings_spec(&self) -> GlobalMemPoolSettings {
        self.settings
    }

    /// Number of pages that the pool holds.
    pub closed spec fn page_count(&self) -> nat {
        self.pages@.len()
    }

    /// The length of each page that the pool holds, in bytes.
    pub closed spec fn page_lens(&self) -> Seq<nat> {
        Seq::new(self.pages@.len(), |i: int| mapping_len(self.pages@[i]))
    }

    /// The length that every page of the pool is to have, in bytes.
    pub open spec fn page_len(&self) -> nat {
        (self.settings_spec().page_entries * pow2(self.settings_spec().buf_size as nat)) as nat
    }

    /// The free slabs: those in the cache `tl` and those in the shared queue.
    pub open spec fn free(&self, tl: &TLMemPool) -> Seq<usize> {
        tl.cache@ + self.queued()
    }

    /// The counts are sound: the free slabs are exactly the slabs that no
    /// part shares, and none of them is free twice. So a slab comes back
    /// among the free slabs once, when its last share is given up. And the
    /// slabs are those of the pages, each of which has the length of a page.
    pub open spec fn wf(&self, tl: &TLMemPool) -> bool {
        &&& self.slabs_sound(tl)
        &&& self.counts().len() == self.page_count() * self.settings_spec().page_entries
        &&& self.page_lens().len() == self.page_count()
        &&& forall|i: int|
            0 <= i < self.page_lens().len() ==> #[trigger] self.page_lens()[i] == self.page_len()
    }

    /// The free slabs are exactly the slabs that no part shares, and none of
    /// them is free twice.
    pub open spec fn slabs_sound(&self, tl: &TLMemPool) -> bool {
        &&& self.settings_spec().valid()
        &&& self.in_flight() <= self.settings_spec().concurrent_allocation_limit
        &&& distinct(self.free(tl))
        &&& forall|k: int|
            0 <= k < self.free(tl).len() ==> (#[trigger] self.free(tl)[k]) < self.counts().len()
                && self.counts()[self.free(tl)[k] as int] == 0
        &&& forall|s: int|
            0 <= s < self.counts().len() && #[trigger] self.counts()[s] == 0 ==> self.free(
                tl,
            ).contains(s as usize)
    }

    /// A pool without slabs; none where the settings are not valid.
    pub fn new(settings: GlobalMemPoolSettings) -> (r: Option<GlobalMemPool>)
        ensures
            settings.valid() ==> r is Some,
            !settings.valid() ==> r is None,
            r matches Some(pool) ==> pool.settings_spec() == settings && pool.queued() == Seq::<
                usize,
            >::empty() && pool.counts() == Seq::<u32>::empty() && pool.in_flight() == 0
                && pool.page_count() == 0 && pool.page_lens() == Seq::<nat>::empty(),
    {
        if !settings.is_valid() {
            return None;
        }
        Some(
            GlobalMemPool {
                memory: queue_new(),
                settings,
                allocs: 0,
                refcounts: Vec::new(),
                pages: Vec::new(),
            },
        )
    }

    /// The layout of the pool.
    pub fn settings_of(&self) -> (r: GlobalMemPoolSettings)
        ensures
            r == self.settings_spec(),
    {
        self.settings
    }

    /// Number of bytes of a slab that a part can use.
    pub fn usable(&self) -> (n: usize)
        requires
            self.settings_spec().valid(),
        ensures
            n == pow2(self.settings_spec().buf_size as nat) - 4,
    {
        self.settings.realsize()
    }

    /// The count of the parts that share `slab`.
    pub fn refcount(&self, slab: usize) -> (n: u32)
        requires
            slab < self.counts().len(),
        ensures
            n == self.counts()[slab as int],
    {
        self.refcounts[slab]
    }

    /// Number of slabs ever made.
    pub fn slabs(&self) -> (n: usize)
        ensures
            n == self.counts().len(),
    {
        self.refcounts.len()
    }

    /// Puts a slab that no part shares any more back among the free slabs:
    /// into the cache if it has room, else into the shared queue.
    fn reclaim(&mut self, tl: &mut TLMemPool, memory: usize)
        ensures
            final(tl).limit == old(tl).limit,
            final(self).counts() == old(self).counts(),
            final(self).in_flight() == old(self).in_flight(),
            final(self).settings_spec() == old(self).settings_spec(),
            final(self).page_count() == old(self).page_count(),
            final(self).page_lens() == old(self).page_lens(),
            old(tl).cache@.len() < old(tl).limit ==> final(tl).cache@ == old(tl).cache@.push(memory)
                && final(self).queued() == old(self).queued(),
            old(tl).cache@.len() >= old(tl).limit ==> final(tl).cache@ == old(tl).cache@ && final(self).queued() == old(self).queued().push(memory),
    {
        if tl.try_push(memory) {
            return ;
        }
        // Pushing onto the local cache failed, just push to the global listing
        queue_push(&mut self.memory, memory);
    }

    /// Asks the shared pool for a slab: the slab at the front of the queue if
    /// there is one; else leave to map a page, which is then counted as in
    /// the making, unless as many are in the making as may be.
    pub fn allocate_global(&mut self) -> (r: GlobalStep)
        requires
            old(self).settings_spec().valid(),
        ensures
            final(self).counts() == old(self).counts(),
            final(self).settings_spec() == old(self).settings_spec(),
            final(self).page_count() == old(self).page_count(),
            final(self).page_lens() == old(self).page_lens(),
            r == (if old(self).queued().len() > 0 {
                GlobalStep::Slab(old(self).queued()[0])
            } else if old(self).in_flight() < old(self).settings_spec().concurrent_allocation_limit {
                GlobalStep::NeedPage {
                    len: (old(self).settings_spec().page_entries * pow2(
                        old(self).settings_spec().buf_size as nat,
                    )) as usize,
                }
            } else {
                GlobalStep::Busy
            }),
            r is Slab ==> final(self).queued() == old(self).queued().skip(1) && final(self).in_flight() == old(self).in_flight(),
            r is NeedPage ==> final(self).queued() == old(self).queued() && final(self).in_flight()
                == old(self).in_flight() + 1,
            r is Busy ==> final(self).queued() == old(self).queued() && final(self).in_flight()
                == old(self).in_flight(),
    {
        match queue_pop(&mut self.memory) {
            Some(slice) => GlobalStep::Slab(slice),
            None => {
                // Try to allocate
                let previous_allocs = self.allocs;
                if previous_allocs < self.settings.concurrent_allocation_limit {
                    self.allocs = previous_allocs + 1;
                    GlobalStep::NeedPage { len: self.settings.page_len() }
                } else {
                    // We are already allocating maximum pages, back off
                    GlobalStep::Busy
                }
            },
        }
    }

    /// Takes in a page that has been mapped: makes its slabs, queues all but
    /// the first, and hands out the first. The page is no longer in the
    /// making.
    pub fn page_mapped(&mut self, tl: &TLMemPool, page: MmapMut) -> (first: usize)
        requires
            old(self).wf(tl),
            old(self).in_flight() > 0,
            old(self).counts().len() + old(self).settings_spec().page_entries <= usize::MAX,
            mapping_len(page) == old(self).page_len(),
        ensures
            first == old(self).counts().len(),
            final(self).settings_spec() == old(self).settings_spec(),
            final(self).page_count() == old(self).page_count() + 1,
            final(self).page_lens() == old(self).page_lens().push(old(self).page_len()),
            final(self).in_flight() == old(self).in_flight() - 1,
            final(self).counts() == old(self).counts() + Seq::new(
                old(self).settings_spec().page_entries as nat,
                |i: int|
                    if i == 0 {
                        1u32
                    } else {
                        0u32
                    },
            ),
            final(self).queued() == old(self).queued() + Seq::new(
                (old(self).settings_spec().page_entries - 1) as nat,
                |i: int| (first + 1 + i) as usize,
            ),
            final(self).wf(tl),
    {
        let first = self.refcounts.len();
        let n = self.settings.page_entries;
        let ghost counts0 = self.refcounts@;
        let ghost queued0 = self.queued();
        let ghost pages0 = self.page_count();
        let ghost lens0 = self.page_lens();
        self.pages.push(page);
        proof {
            assert(self.page_lens() =~= lens0.push(old(self).page_len()));
        }
        self.refcounts.push(1);
        proof {
            assert(self.counts() =~= counts0 + Seq::new(
                1,
                |i: int|
                    if i == 0 {
                        1u32
                    } else {
                        0u32
                    },
            ));
            assert(self.queued() =~= queued0 + Seq::new(0, |i: int| (first + 1 + i) as usize));
            assert forall|s: int|
                0 <= s < self.counts().len() && #[trigger] self.counts()[s] == 0 implies self.free(
                tl,
            ).contains(s as usize) by {
                assert(counts0[s] == 0);
            }
        }
        let mut itr: usize = 1;
        while itr < n
            invariant
                1 <= itr <= n,
                n == self.settings.page_entries,
                first == counts0.len(),
                first + n <= usize::MAX,
                first == pages0 * n,
                self.page_count() == pages0 + 1,
                lens0 == old(self).page_lens(),
                self.page_lens() == lens0.push(old(self).page_len()),
                forall|i: int| 0 <= i < lens0.len() ==> #[trigger] lens0[i] == old(self).page_len(),
                lens0.len() == pages0,
                self.settings == old(self).settings,
                self.allocs == old(self).allocs,
                self.counts() == counts0 + Seq::new(
                    itr as nat,
                    |i: int|
                        if i == 0 {
                            1u32
                        } else {
                            0u32
                        },
                ),
                self.queued() == queued0 + Seq::new((itr - 1) as nat, |i: int| (first + 1 + i) as usize),
                self.slabs_sound(tl),
            decreases n - itr,
        {
            let ghost counts_before = self.counts();
            let ghost free_before = self.free(tl);
            let slab = first + itr;
            self.refcounts.push(0);
            queue_push(&mut self.memory, slab);
            proof {
                assert(self.counts() =~= counts0 + Seq::new(
                    (itr + 1) as nat,
                    |i: int|
                        if i == 0 {
                            1u32
                        } else {
                            0u32
                        },
                ));
                assert(self.queued() =~= queued0 + Seq::new(
                    itr as nat,
                    |i: int| (first + 1 + i) as usize,
                ));
                assert(self.free(tl) =~= free_before.push(slab));
                assert forall|s: int|
                    0 <= s < self.counts().len() && #[trigger] self.counts()[s]
                        == 0 implies self.free(tl).contains(s as usize) by {
                    if s < counts_before.len() {
                        assert(counts_before[s] == 0);
                        let k = choose|k: int|
                            0 <= k < free_before.len() && free_before[k] == s as usize;
                        assert(self.free(tl)[k] == s as usize);
                    } else {
                        assert(self.free(tl)[free_before.len() as int] == slab);
                    }
                }
                assert forall|k: int| 0 <= k < self.free(tl).len() implies (
                #[trigger] self.free(tl)[k]) < self.counts().len() && self.counts()[self.free(
                    tl,
                )[k] as int] == 0 by {
                    if k < free_before.len() {
                        assert(free_before[k] < counts_before.len());
                    }
                }
                assert forall|i: int, j: int| 0 <= i < j < self.free(tl).len() implies self.free(
                    tl,
                )[i] != self.free(tl)[j] by {
                    if j == free_before.len() {
                        assert(free_before[i] < counts_before.len());
                    }
                }
            }
            itr = itr + 1;
        }
        self.allocs = self.allocs - 1;
        proof {
            assert((pages0 + 1) * n == pages0 * n + n) by (nonlinear_arith);
        }
        first
    }

    /// Takes note that a page could not be mapped: it is no longer in the
    /// making.
    pub fn page_failed(&mut self)
        requires
            old(self).in_flight() > 0,
        ensures
            final(self).in_flight() == old(self).in_flight() - 1,
            final(self).queued() == old(self).queued(),
            final(self).counts() == old(self).counts(),
            final(self).settings_spec() == old(self).settings_spec(),
            final(self).page_count() == old(self).page_count(),
            final(self).page_lens() == old(self).page_lens(),
    {
        self.allocs = self.allocs - 1;
    }

    /// The part that covers the usable bytes of `slab`, which becomes a slab
    /// with one share.
    fn first_part(&mut self, slab: usize) -> (p: Part)
        requires
            slab < old(self).counts().len(),
            old(self).settings_spec().valid(),
        ensures
            final(self).counts() == old(self).counts().update(slab as int, 1u32),
            final(self).queued() == old(self).queued(),
            final(self).in_flight() == old(self).in_flight(),
            final(self).settings_spec() == old(self).settings_spec(),
            final(self).page_count() == old(self).page_count(),
            final(self).page_lens() == old(self).page_lens(),
            p.slab() == slab,
            p.window() == (Slice {
                ptr: 0,
                len: (pow2(old(self).settings_spec().buf_size as nat) - 4) as usize,
            }),
    {
        // Every slab starts out with one owner
        self.refcounts[slab] = 1;
        Part { parent_slice: slab, data: Slice { ptr: 0, len: self.settings.realsize() } }
    }

    /// Number of pages that the pool holds.
    pub fn pages(&self) -> (n: usize)
        ensures
            n == self.page_count(),
    {
        self.pages.len()
    }

    /// Whether `page` has the length of a page of this pool, so that the pool
    /// can take it in.
    pub fn page_fits(&self, page: &MmapMut) -> (r: bool)
        requires
            self.settings_spec().valid(),
        ensures
            r == (mapping_len(*page) == self.page_len()),
    {
        mapping_length(page) == self.settings.page_len()
    }

    /// The address at which page `page` starts.
    pub fn page_address(&self, page: usize) -> (a: usize)
        requires
            page < self.page_count(),
    {
        mapping_address(&self.pages[page])
    }

    /// Hands out a part: of a slab from the cache `tl`, else from the shared
    /// queue, else of the first slab of a page that is mapped for it, unless
    /// as many pages as may be are in the making. Whether the system maps a
    /// page is for the system to say; if it does not, nothing has changed.
    pub fn allocate(&mut self, tl: &mut TLMemPool) -> (r: Result<Part, AllocError>)
        requires
            old(self).wf(old(tl)),
        ensures
            final(self).wf(final(tl)),
            final(tl).limit == old(tl).limit,
            final(self).settings_spec() == old(self).settings_spec(),
            final(self).in_flight() == old(self).in_flight(),
            r matches Ok(p) ==> p.window() == (Slice {
                ptr: 0,
                len: (pow2(old(self).settings_spec().buf_size as nat) - 4) as usize,
            }) && p.slab() < final(self).counts().len() && final(self).counts()[p.slab() as int]
                == 1,
            old(self).free(old(tl)).len() > 0 ==> {
                &&& r matches Ok(p)
                &&& p.slab() == (if old(tl).cache@.len() > 0 {
                    old(tl).cache@.last()
                } else {
                    old(self).queued()[0]
                })
                &&& final(self).counts() == old(self).counts().update(p.slab() as int, 1u32)
                &&& final(self).free(final(tl)) == old(self).free(old(tl)).remove(
                    if old(tl).cache@.len() > 0 {
                        old(tl).cache@.len() - 1
                    } else {
                        0
                    },
                )
                &&& final(self).page_count() == old(self).page_count()
                &&& final(self).page_lens() == old(self).page_lens()
            },
            old(self).free(old(tl)).len() == 0 ==> match r {
                Ok(p) => {
                    &&& old(self).in_flight() < old(self).settings_spec().concurrent_allocation_limit
                    &&& p.slab() == old(self).counts().len()
                    &&& final(self).page_count() == old(self).page_count() + 1
                    &&& final(self).page_lens() == old(self).page_lens().push(old(self).page_len())
                    &&& final(self).counts() == old(self).counts() + fresh_counts(
                        old(self).settings_spec().page_entries,
                    )
                    &&& final(self).queued() == old(self).queued() + fresh_slabs(
                        p.slab(),
                        old(self).settings_spec().page_entries,
                    )
                    &&& final(tl).cache@ == old(tl).cache@
                },
                Err(e) => {
                    &&& (e is Busy) == (old(self).in_flight() >= old(self).settings_spec().concurrent_allocation_limit)
                    &&& (e is Exhausted) == (!(e is Busy) && old(self).counts().len() + old(self).settings_spec().page_entries > usize::MAX)
                    &&& final(self).counts() == old(self).counts()
                    &&& final(self).free(final(tl)) == old(self).free(old(tl))
                    &&& final(self).page_count() == old(self).page_count()
                &&& final(self).page_lens() == old(self).page_lens()
                },
            },
    {
        let ghost free0 = self.free(tl);
        let ghost cached = tl.cache@.len() as int;
        match self.allocate_step(tl) {
            Allocation::Part(p) => {
                proof {
                    let at = if cached > 0 {
                        cached - 1
                    } else {
                        0
                    };
                    assert(free0[at] == p.slab());
                }
                Ok(p)
            },
            Allocation::Busy => Err(AllocError::Busy),
            Allocation::NeedPage { len } => {
                if self.refcounts.len() > usize::MAX - self.settings.page_entries {
                    self.page_failed();
                    return Err(AllocError::Exhausted);
                }
                match map_anon(len) {
                    Some(page) => Ok(self.allocate_mapped(tl, page)),
                    None => {
                        self.page_failed();
                        Err(AllocError::MapFailed)
                    },
                }
            },
        }
    }

    /// Asks for a part: a slab from the cache `tl`, else from the shared
    /// queue, becomes a slab with one share, and the part covers its usable
    /// bytes. Where no slab is free, the answer is what
    /// [`GlobalMemPool::allocate_global`] says.
    pub fn allocate_step(&mut self, tl: &mut TLMemPool) -> (r: Allocation)
        requires
            old(self).wf(old(tl)),
        ensures
            final(self).wf(final(tl)),
            final(tl).limit == old(tl).limit,
            final(self).settings_spec() == old(self).settings_spec(),
            final(self).page_count() == old(self).page_count(),
            final(self).page_lens() == old(self).page_lens(),
            old(self).free(old(tl)).len() > 0 ==> {
                &&& r matches Allocation::Part(p)
                &&& p.slab() == (if old(tl).cache@.len() > 0 {
                    old(tl).cache@.last()
                } else {
                    old(self).queued()[0]
                })
                &&& p.window() == (Slice {
                    ptr: 0,
                    len: (pow2(old(self).settings_spec().buf_size as nat) - 4) as usize,
                })
                &&& final(self).counts() == old(self).counts().update(p.slab() as int, 1u32)
                &&& final(self).free(final(tl)) == old(self).free(old(tl)).remove(
                    if old(tl).cache@.len() > 0 {
                        old(tl).cache@.len() - 1
                    } else {
                        0
                    },
                )
                &&& final(self).in_flight() == old(self).in_flight()
            },
            old(self).free(old(tl)).len() == 0 ==> {
                &&& final(self).counts() == old(self).counts()
                &&& final(self).free(final(tl)) == old(self).free(old(tl))
                &&& if old(self).in_flight() < old(self).settings_spec().concurrent_allocation_limit {
                    &&& r matches Allocation::NeedPage { len }
                    &&& len == old(self).settings_spec().page_entries * pow2(
                        old(self).settings_spec().buf_size as nat,
                    )
                    &&& final(self).in_flight() == old(self).in_flight() + 1
                } else {
                    &&& r is Busy
                    &&& final(self).in_flight() == old(self).in_flight()
                }
            },
    {
        let ghost free0 = self.free(tl);
        let ghost counts0 = self.counts();
        let ghost cache0 = tl.cache@;
        let ghost queued0 = self.queued();
        let made = self.slabs();
        let slab = match tl.pop() {
            Some(slab) => {
                proof {
                    assert(free0[cache0.len() - 1] == slab);
                    assert(self.free(tl) =~= free0.remove(cache0.len() - 1));
                }
                slab
            },
            None => match self.allocate_global() {
                GlobalStep::Slab(slab) => {
                    proof {
                        assert(free0 =~= queued0);
                        assert(free0[0] == slab);
                        assert(self.free(tl) =~= free0.remove(0));
                    }
                    slab
                },
                GlobalStep::NeedPage { len } => {
                    proof {
                        assert(self.free(tl) =~= free0);
                    }
                    return Allocation::NeedPage { len };
                },
                GlobalStep::Busy => {
                    proof {
                        assert(self.free(tl) =~= free0);
                    }
                    return Allocation::Busy;
                },
            },
        };
        let ghost at = if cache0.len() > 0 {
            cache0.len() - 1
        } else {
            0
        };
        proof {
            assert(free0[at] == slab);
            assert(slab < made);
        }
        let ghost free1 = self.free(tl);
        let p = self.first_part(slab);
        proof {
            assert(self.free(tl) =~= free1);
            assert(free1 =~= free0.remove(at));
            assert(free0[at] == slab);
            lemma_remove_keeps(free0, at);
            assert forall|s: int|
                0 <= s < self.counts().len() && #[trigger] self.counts()[s] == 0 implies self.free(
                tl,
            ).contains(s as usize) by {
                assert(s != slab);
                assert(counts0[s] == 0);
                assert(free0.contains(s as usize));
                let k = choose|k: int| 0 <= k < free0.len() && free0[k] == s as usize;
                assert(k != at);
                if k < at {
                    assert(free1[k] == s as usize);
                } else {
                    assert(free1[k - 1] == free0[k]);
                }
            }
            assert forall|k: int| 0 <= k < free1.len() implies (#[trigger] free1[k])
                < self.counts().len() && self.counts()[free1[k] as int] == 0 by {
                if k < at {
                    assert(free1[k] == free0[k]);
                } else {
                    assert(free1[k] == free0[k + 1]);
                }
            }
        }
        Allocation::Part(p)
    }

    /// The part that comes of a request that was answered with leave to map
    /// a page, once the page has been mapped: the first slab of the page.
    pub fn allocate_mapped(&mut self, tl: &TLMemPool, page: MmapMut) -> (p: Part)
        requires
            old(self).wf(tl),
            old(self).in_flight() > 0,
            old(self).counts().len() + old(self).settings_spec().page_entries <= usize::MAX,
            mapping_len(page) == old(self).page_len(),
        ensures
            final(self).wf(tl),
            p.slab() == old(self).counts().len(),
            p.window() == (Slice {
                ptr: 0,
                len: (pow2(old(self).settings_spec().buf_size as nat) - 4) as usize,
            }),
            final(self).settings_spec() == old(self).settings_spec(),
            final(self).page_count() == old(self).page_count() + 1,
            final(self).page_lens() == old(self).page_lens().push(old(self).page_len()),
            final(self).in_flight() == old(self).in_flight() - 1,
            final(self).counts() == old(self).counts() + fresh_counts(
                old(self).settings_spec().page_entries,
            ),
            final(self).queued() == old(self).queued() + fresh_slabs(
                p.slab(),
                old(self).settings_spec().page_entries,
            ),
    {
        let first = self.page_mapped(tl, page);
        let ghost counts1 = self.counts();
        let ghost free1 = self.free(tl);
        let p = self.first_part(first);
        proof {
            assert(counts1[first as int] == 1u32);
            assert(self.counts() =~= counts1);
            assert(self.free(tl) =~= free1);
        }
        p
    }
}

/// A share more in a slab that is shared already leaves the counts sound.
pub proof fn lemma_share_keeps_wf(
    before: GlobalMemPool,
    after: GlobalMemPool,
    tl: TLMemPool,
    slab: int,
)
    requires
        before.wf(&tl),
        0 <= slab < before.counts().len(),
        1 <= before.counts()[slab] < u32::MAX,
        after.counts() == before.counts().update(slab, (before.counts()[slab] + 1) as u32),
        after.queued() == before.queued(),
        after.in_flight() == before.in_flight(),
        after.settings_spec() == before.settings_spec(),
        after.page_count() == before.page_count(),
        after.page_lens() == before.page_lens(),
    ensures
        after.wf(&tl),
{
    let free = before.free(&tl);
    assert(after.free(&tl) == free);
    assert forall|k: int| 0 <= k < free.len() implies (#[trigger] after.free(&tl)[k])
        < after.counts().len() && after.counts()[after.free(&tl)[k] as int] == 0 by {
        assert(before.counts()[free[k] as int] == 0);
    }
    assert forall|s: int|
        0 <= s < after.counts().len() && #[trigger] after.counts()[s] == 0 implies after.free(
        &tl,
    ).contains(s as usize) by {
        assert(before.counts()[s] == 0);
    }
}

/// Taking one slab out of a sequence of different slabs leaves different
/// slabs, none of which is the one taken out.
pub proof fn lemma_remove_keeps(s: Seq<usize>, at: int)
    requires
        distinct(s),
        0 <= at < s.len(),
    ensures
        distinct(s.remove(at)),
        !s.remove(at).contains(s[at]),
{
    let r = s.remove(at);
    assert forall|i: int, j: int| 0 <= i < j < r.len() implies r[i] != r[j] by {
        let a = if i < at {
            i
        } else {
            i + 1
        };
        let b = if j < at {
            j
        } else {
            j + 1
        };
        assert(r[i] == s[a] && r[j] == s[b]);
    }
    if r.contains(s[at]) {
        let k = choose|k: int| 0 <= k < r.len() && r[k] == s[at];
        let a = if k < at {
            k
        } else {
            k + 1
        };
        assert(r[k] == s[a]);
    }
}

impl Part {
    /// The slab that the part shares.
    pub closed spec fn slab(&self) -> usize {
        self.parent_slice
    }

    /// The window of the slab that the part covers.
    pub closed spec fn window(&self) -> Slice {
        self.data
    }

    /// The slab that the part shares.
    pub fn parent(&self) -> (r: usize)
        ensures
            r == self.slab(),
    {
        self.parent_slice
    }

    /// Where the window starts, in bytes from the start of the slab.
    pub fn offset(&self) -> (r: usize)
        ensures
            r == self.window().ptr,
    {
        self.data.ptr
    }

    /// Number of bytes in the window.
    pub fn remaining(&self) -> (r: usize)
        ensures
            r == self.window().len,
    {
        self.data.len
    }

    /// Moves the start of the window `cnt` bytes on.
    pub fn advance(&mut self, cnt: usize)
        requires
            cnt <= old(self).window().len,
            old(self).window().ptr + cnt <= usize::MAX,
        ensures
            final(self).slab() == old(self).slab(),
            final(self).window() == (Slice {
                ptr: (old(self).window().ptr + cnt) as usize,
                len: (old(self).window().len - cnt) as usize,
            }),
    {
        self.data.len = self.data.len - cnt;
        self.data.ptr = self.data.ptr + cnt;
    }

    /// Cuts the window down to its first `len` bytes.
    pub fn truncate(&mut self, len: usize)
        requires
            len <= old(self).window().len,
        ensures
            final(self).slab() == old(self).slab(),
            final(self).window() == (Slice { ptr: old(self).window().ptr, len }),
    {
        self.data.len = len;
    }

    /// Cuts the first `at` bytes of the window off as a part of their own;
    /// `self` keeps the rest. The slab has one share more.
    pub fn split_to(&mut self, pool: &mut GlobalMemPool, at: usize) -> (head: Part)
        requires
            at <= old(self).window().len,
            old(self).window().ptr + at <= usize::MAX,
            old(self).slab() < old(pool).counts().len(),
            1 <= old(pool).counts()[old(self).slab() as int] < u32::MAX,
        ensures
            final(self).slab() == old(self).slab(),
            head.slab() == old(self).slab(),
            head.window() == (Slice { ptr: old(self).window().ptr, len: at }),
            final(self).window() == (Slice {
                ptr: (old(self).window().ptr + at) as usize,
                len: (old(self).window().len - at) as usize,
            }),
            final(pool).counts() == old(pool).counts().update(
                old(self).slab() as int,
                (old(pool).counts()[old(self).slab() as int] + 1) as u32,
            ),
            final(pool).queued() == old(pool).queued(),
            final(pool).in_flight() == old(pool).in_flight(),
            final(pool).settings_spec() == old(pool).settings_spec(),
            final(pool).page_count() == old(pool).page_count(),
            final(pool).page_lens() == old(pool).page_lens(),
    {
        let old_ptr = self.data.ptr;
        self.data.len = self.data.len - at;
        self.data.ptr = self.data.ptr + at;
        // Since we are bringing another part into the world, make sure we count it.
        let rc = pool.refcounts[self.parent_slice];
        pool.refcounts[self.parent_slice] = rc + 1;
        Part { parent_slice: self.parent_slice, data: Slice { ptr: old_ptr, len: at } }
    }

    /// Gives the share up. When it was the last share in its slab, the slab
    /// goes back among the free slabs: into the cache `tl` if it has room,
    /// else to the back of the shared queue.
    pub fn release(self, pool: &mut GlobalMemPool, tl: &mut TLMemPool)
        requires
            old(pool).wf(old(tl)),
            self.slab() < old(pool).counts().len(),
            old(pool).counts()[self.slab() as int] >= 1,
        ensures
            final(pool).wf(final(tl)),
            final(tl).limit == old(tl).limit,
            final(pool).settings_spec() == old(pool).settings_spec(),
            final(pool).page_count() == old(pool).page_count(),
            final(pool).page_lens() == old(pool).page_lens(),
            final(pool).in_flight() == old(pool).in_flight(),
            final(pool).counts() == old(pool).counts().update(
                self.slab() as int,
                (old(pool).counts()[self.slab() as int] - 1) as u32,
            ),
            old(pool).counts()[self.slab() as int] > 1 ==> final(tl).cache@ == old(tl).cache@
                && final(pool).queued() == old(pool).queued(),
            old(pool).counts()[self.slab() as int] == 1 && old(tl).cache@.len() < old(tl).limit
                ==> final(tl).cache@ == old(tl).cache@.push(self.slab()) && final(pool).queued()
                == old(pool).queued(),
            old(pool).counts()[self.slab() as int] == 1 && old(tl).cache@.len() >= old(tl).limit
                ==> final(tl).cache@ == old(tl).cache@ && final(pool).queued() == old(pool).queued().push(self.slab()),
    {
        let ghost free0 = pool.free(tl);
        let ghost counts0 = pool.counts();
        let made = pool.slabs();
        let slab = self.parent_slice;
        assert(slab < made);
        let rc = pool.refcounts[slab];
        if rc == 1 {
            pool.reclaim(tl, slab);
        }
        pool.refcounts[slab] = rc - 1;
        proof {
            let free1 = pool.free(tl);
            if rc == 1 {
                // the slab was not free, and is now free once
                assert(!free0.contains(slab)) by {
                    if free0.contains(slab) {
                        let k = choose|k: int| 0 <= k < free0.len() && free0[k] == slab;
                        assert(counts0[free0[k] as int] == 0);
                    }
                }
                if old(tl).cache@.len() < old(tl).limit {
                    assert(free1 =~= old(tl).cache@.push(slab) + old(pool).queued());
                    let c = old(tl).cache@.len() as int;
                    assert forall|i: int, j: int| 0 <= i < j < free1.len() implies free1[i]
                        != free1[j] by {
                        let a = if i < c {
                            i
                        } else {
                            i - 1
                        };
                        let b = if j < c {
                            j
                        } else {
                            j - 1
                        };
                        if i != c && j != c {
                            assert(free1[i] == free0[a] && free1[j] == free0[b]);
                        } else if i == c {
                            assert(free1[j] == free0[b]);
                        } else {
                            assert(free1[i] == free0[a]);
                        }
                    }
                    assert forall|k: int| 0 <= k < free1.len() implies (#[trigger] free1[k])
                        < pool.counts().len() && pool.counts()[free1[k] as int] == 0 by {
                        if k < c {
                            assert(free1[k] == free0[k]);
                        } else if k > c {
                            assert(free1[k] == free0[k - 1]);
                        }
                    }
                    assert forall|s: int|
                        0 <= s < pool.counts().len() && #[trigger] pool.counts()[s]
                            == 0 implies free1.contains(s as usize) by {
                        if s == slab {
                            assert(free1[c] == slab);
                        } else {
                            assert(counts0[s] == 0);
                            let k = choose|k: int| 0 <= k < free0.len() && free0[k] == s as usize;
                            if k < c {
                                assert(free1[k] == s as usize);
                            } else {
                                assert(free1[k + 1] == s as usize);
                            }
                        }
                    }
                } else {
                    assert(free1 =~= free0.push(slab));
                    assert forall|s: int|
                        0 <= s < pool.counts().len() && #[trigger] pool.counts()[s]
                            == 0 implies free1.contains(s as usize) by {
                        if s == slab {
                            assert(free1[free0.len() as int] == slab);
                        } else {
                            assert(counts0[s] == 0);
                            let k = choose|k: int| 0 <= k < free0.len() && free0[k] == s as usize;
                            assert(free1[k] == s as usize);
                        }
                    }
                    assert forall|k: int| 0 <= k < free1.len() implies (#[trigger] free1[k])
                        < pool.counts().len() && pool.counts()[free1[k] as int] == 0 by {
                        if k < free0.len() {
                            assert(free1[k] == free0[k]);
                        }
                    }
                }
            } else {
                assert(free1 =~= free0);
                assert forall|s: int|
                    0 <= s < pool.counts().len() && #[trigger] pool.counts()[s]
                        == 0 implies free1.contains(s as usize) by {
                    assert(counts0[s] == 0);
                }
                assert forall|k: int| 0 <= k < free1.len() implies (#[trigger] free1[k])
                    < pool.counts().len() && pool.counts()[free1[k] as int] == 0 by {
                    assert(counts0[free0[k] as int] == 0);
                }
            }
        }
    }
}

} // verus!
