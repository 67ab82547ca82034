use std::collections::VecDeque;
use std::marker::PhantomData;
use vstd::arithmetic::div_mod::lemma_mod_equivalence;
use vstd::arithmetic::div_mod::lemma_small_mod;
use vstd::arithmetic::power2::lemma2_to64;
use vstd::arithmetic::power2::lemma_pow2_strictly_increases;
use vstd::arithmetic::power2::lemma_pow2_unfold;
use vstd::arithmetic::power2::pow2;
use vstd::prelude::*;

verus! {

#[derive(Clone, Copy)]
struct FrameHeader {
    // The index of the next frame header
    next: usize,
    // Whether the frame is still held
    is_live: bool,
}

enum RingElement<T> {
    // Marks the beginning of a frame
    Header(FrameHeader),
    // An element of a frame
    Element(T),
    // Nothing
    Vacant,
}

/// One frame of a ring, as contracts see it.
pub struct FrameView<T> {
    /// Index of the frame's header.
    pub start: nat,
    /// Index of the next frame's header, or the ring's head.
    pub next: nat,
    /// Whether the frame is still held.
    pub live: bool,
    /// The elements of a held frame, in the order in which they were appended.
    pub items: Seq<T>,
}

/// An arena that groups appended elements into frames. Its slots form a ring
/// whose size is a power of two and doubles when the ring is full. Slots are
/// named by indices that only grow; a slot's place in the ring is its index
/// modulo the size.
pub struct FramedRing<T> {
    ring: Vec<RingElement<T>>,
    // The index of the oldest frame header
    base: usize,
    // The index of the next slot to be written
    head: usize,
    // ring size = 2 pow ring_size_2
    ring_size_2: u8,
    model: Ghost<Seq<FrameView<T>>>,
}

/// A frame of a ring that is complete.
pub struct RingFrame<T> {
    start: usize,
    pd: PhantomData<T>,
}

/// The frame at the head of a ring, which can still grow.
pub struct RingFrameMut<T> {
    f: RingFrame<T>,
}

/// A walk over the elements of a frame, first to last.
pub struct RingFrameIter<T> {
    i: usize,
    end: usize,
    start: Ghost<nat>,
    pd: PhantomData<T>,
}

/// The elements taken out of a frame, to be handed out first to last.
pub struct RingFrameIntoIter<T> {
    rest: VecDeque<T>,
}

/// Two indices less than a ring's size apart lie in different slots.
proof fn lemma_slots_distinct(a: int, b: int, cap: int)
    requires
        0 < cap,
        a < b < a + cap,
    ensures
        a % cap != b % cap,
{
    lemma_mod_equivalence(b, a, cap);
    lemma_small_mod((b - a) as nat, cap as nat);
}

/// The slot in which index `i` lies.
spec fn at<T>(slots: Seq<RingElement<T>>, i: int) -> RingElement<T> {
    slots[i % (slots.len() as int)]
}

/// The slots hold what the model says of frame `f`.
spec fn frame_ok<T>(slots: Seq<RingElement<T>>, f: FrameView<T>) -> bool {
    &&& f.start < f.next <= usize::MAX
    &&& at(slots, f.start as int) == RingElement::<T>::Header(
        FrameHeader { next: f.next as usize, is_live: f.live },
    )
    &&& f.items.len() == (if f.live {
        f.next - f.start - 1
    } else {
        0
    })
    &&& forall|j: int|
        0 <= j < f.items.len() ==> #[trigger] at(slots, f.start + 1 + j) == RingElement::Element(
            f.items[j],
        )
}

/// Frame `i` ends where frame `i + 1` starts.
pub open spec fn linked<T>(model: Seq<FrameView<T>>, i: int) -> bool {
    model[i].next == model[i + 1].start
}

/// The frames lie one after the other from `base` to `head`, and the first
/// one, if there is one, is held.
pub open spec fn chained<T>(model: Seq<FrameView<T>>, base: int, head: int) -> bool {
    &&& base <= head
    &&& model.len() == 0 ==> base == head
    &&& model.len() > 0 ==> model[0].start == base && model[0].live && model.last().next == head
    &&& forall|i: int| 0 <= i < model.len() ==> (#[trigger] model[i]).start < model[i].next
    &&& forall|i: int| 0 <= i < model.len() - 1 ==> #[trigger] linked(model, i)
}

/// A frame further on starts where an earlier one ends, or later.
pub proof fn lemma_chain_step<T>(model: Seq<FrameView<T>>, base: int, head: int, i: int, j: int)
    requires
        chained(model, base, head),
        0 <= i < j < model.len(),
    ensures
        model[i].next <= model[j].start,
    decreases j - i,
{
    assert(linked(model, j - 1));
    if i < j - 1 {
        lemma_chain_step(model, base, head, i, j - 1);
        assert(model[j - 1].start < model[j - 1].next);
    }
}

/// Frames further on start further on, and all lie between `base` and `head`.
pub proof fn lemma_chain_order<T>(model: Seq<FrameView<T>>, base: int, head: int, i: int, j: int)
    requires
        chained(model, base, head),
        0 <= i <= j < model.len(),
    ensures
        base <= model[i].start,
        model[i].start < model[i].next,
        model[j].start < model[j].next,
        model[j].next <= head,
        i < j ==> model[i].next <= model[j].start,
{
    let n = model.len() as int;
    if 0 < i {
        lemma_chain_step(model, base, head, 0, i);
        assert(model[0].start < model[0].next);
    }
    if j < n - 1 {
        lemma_chain_step(model, base, head, j, n - 1);
        assert(model[n - 1].start < model[n - 1].next);
    }
    if i < j {
        lemma_chain_step(model, base, head, i, j);
    }
    assert(model[i].start < model[i].next);
    assert(model[j].start < model[j].next);
}

/// What releasing the frame at place `i` makes of the frames, the base and
/// the head of a ring. The frame at the base goes together with every frame
/// after it that is no longer held, up to the first that is; the frame at the
/// head gives its slots back; any other frame stays, as a frame not held,
/// until the base passes it.
pub open spec fn release_spec<T>(model: Seq<FrameView<T>>, base: int, head: int, i: int) -> (
    Seq<FrameView<T>>,
    int,
    int,
) {
    if i == 0 {
        let k = first_live(model, 1);
        (
            model.skip(k),
            if k < model.len() {
                model[k].start as int
            } else {
                head
            },
            head,
        )
    } else if i == model.len() - 1 {
        (model.drop_last(), base, model[i].start as int)
    } else {
        (
            model.update(
                i,
                FrameView { start: model[i].start, next: model[i].next, live: false, items: Seq::empty() },
            ),
            base,
            head,
        )
    }
}

/// The place of the first frame from place `k` on that is held; the number of
/// frames if there is none.
pub open spec fn first_live<T>(model: Seq<FrameView<T>>, k: int) -> int
    decreases model.len() - k,
{
    if k < 0 || k >= model.len() {
        model.len() as int
    } else if model[k].live {
        k
    } else {
        first_live(model, k + 1)
    }
}

/// Releasing a frame leaves the frames chained.
pub proof fn lemma_release_chained<T>(model: Seq<FrameView<T>>, base: int, head: int, i: int)
    requires
        chained(model, base, head),
        0 <= i < model.len(),
    ensures
        ({
            let (m, b, h) = release_spec(model, base, head, i);
            chained(m, b, h)
        }),
{
    let (m, b, h) = release_spec(model, base, head, i);
    if i == 0 {
        let k = first_live(model, 1);
        lemma_first_live(model, 1);
        if k < model.len() {
            lemma_chain_order(model, base, head, 0, k);
            lemma_chain_order(model, base, head, k, model.len() - 1);
            assert forall|x: int| 0 <= x < m.len() - 1 implies #[trigger] linked(m, x) by {
                assert(linked(model, x + k));
            }
        }
    } else if i == model.len() - 1 {
        lemma_chain_order(model, base, head, 0, i - 1);
        lemma_chain_order(model, base, head, i, i);
        assert(linked(model, i - 1));
        assert forall|x: int| 0 <= x < m.len() - 1 implies #[trigger] linked(m, x) by {
            assert(linked(model, x));
        }
    } else {
        assert forall|x: int| 0 <= x < m.len() - 1 implies #[trigger] linked(m, x) by {
            assert(linked(model, x));
        }
    }
}

/// `first_live` finds a held frame, or the end, and passes only frames that
/// are not held.
pub proof fn lemma_first_live<T>(model: Seq<FrameView<T>>, k: int)
    requires
        0 <= k <= model.len(),
    ensures
        k <= first_live(model, k) <= model.len(),
        first_live(model, k) < model.len() ==> model[first_live(model, k)].live,
        forall|x: int| k <= x < first_live(model, k) ==> !(#[trigger] model[x]).live,
    decreases model.len() - k,
{
    if k < model.len() && !model[k].live {
        lemma_first_live(model, k + 1);
    }
}

/// The base never lies beyond the head, and once no frame is held any more
/// the base has caught up with the head.
pub proof fn lemma_all_released<T>(model: Seq<FrameView<T>>, base: int, head: int)
    requires
        chained(model, base, head),
    ensures
        base <= head,
        (forall|i: int| 0 <= i < model.len() ==> !(#[trigger] model[i]).live) ==> base == head,
{
    if model.len() > 0 {
        assert(model[0].live);
    }
}

impl<T> FramedRing<T> {
    /// The frames between base and head, oldest first.
    pub closed spec fn frames(&self) -> Seq<FrameView<T>> {
        self.model@
    }

    /// Index of the oldest frame's header; the head where there is no frame.
    pub closed spec fn base_spec(&self) -> int {
        self.base as int
    }

    /// Index of the next slot to be written.
    pub closed spec fn head_spec(&self) -> int {
        self.head as int
    }

    /// Number of slots in the ring.
    pub closed spec fn capacity(&self) -> nat {
        self.ring@.len()
    }

    spec fn storage_ok(&self) -> bool {
        &&& self.ring@.len() == pow2(self.ring_size_2 as nat)
        &&& self.ring_size_2 <= 31
        &&& self.ring@.len() <= 0x8000_0000
        &&& self.base <= self.head
        &&& self.head - self.base < self.ring@.len()
    }

    /// The ring's slots hold the frames that [`FramedRing::frames`] lists,
    /// and these lie one after the other from the base to the head.
    pub closed spec fn wf(&self) -> bool {
        &&& self.storage_ok()
        &&& chained(self.model@, self.base as int, self.head as int)
        &&& forall|i: int|
            0 <= i < self.model@.len() ==> frame_ok(self.ring@, #[trigger] self.model@[i])
    }

    /// There is room for one more slot: the head can still be counted, and
    /// the ring can still double.
    pub open spec fn has_room(&self) -> bool {
        self.head_spec() < usize::MAX && self.capacity() <= 0x4000_0000
    }

    /// The place of the frame that starts at `start` among the frames.
    pub open spec fn place(&self, start: int) -> int {
        choose|i: int| 0 <= i < self.frames().len() && self.frames()[i].start == start
    }

    /// A frame starts at `start`, and it is held.
    pub open spec fn holds(&self, start: int) -> bool {
        exists|i: int|
            0 <= i < self.frames().len() && (#[trigger] self.frames()[i]).start == start
                && self.frames()[i].live
    }

    /// The number of slots after one more slot is written: twice the number
    /// where the slot fills the ring.
    pub open spec fn next_capacity(&self) -> nat {
        if self.head_spec() + 1 - self.base_spec() == self.capacity() {
            2 * self.capacity()
        } else {
            self.capacity()
        }
    }

    /// The frame that starts at `start`.
    pub open spec fn frame_at(&self, start: int) -> FrameView<T> {
        self.frames()[self.place(start)]
    }

    /// A held frame at place `i` is found by its start.
    pub proof fn lemma_holds_at(&self, i: int)
        requires
            self.wf(),
            0 <= i < self.frames().len(),
            self.frames()[i].live,
        ensures
            self.holds(self.frames()[i].start as int),
            self.place(self.frames()[i].start as int) == i,
            self.frame_at(self.frames()[i].start as int) == self.frames()[i],
    {
        self.lemma_place(self.frames()[i].start as int);
    }

    /// A held frame has as many elements as it has slots after its header:
    /// all the slots from the one after its start up to where it ends.
    pub proof fn lemma_len_is_span(&self, start: int)
        requires
            self.wf(),
            self.holds(start),
        ensures
            self.frame_at(start).start == start,
            self.frame_at(start).live,
            self.frame_at(start).start < self.frame_at(start).next,
            self.frame_at(start).items.len() == self.frame_at(start).next - self.frame_at(
                start,
            ).start - 1,
    {
        self.lemma_place(start);
        assert(frame_ok(self.ring@, self.model@[self.place(start)]));
    }

    /// A well-formed ring keeps its frames chained.
    pub proof fn lemma_wf_chained(&self)
        requires
            self.wf(),
        ensures
            chained(self.frames(), self.base_spec(), self.head_spec()),
    {
    }

    /// The place of a held frame is the place of a frame that starts where it
    /// starts, and no other frame starts there.
    pub proof fn lemma_place(&self, start: int)
        requires
            self.wf(),
            self.holds(start),
        ensures
            0 <= self.place(start) < self.frames().len(),
            self.frames()[self.place(start)].start == start,
            self.frames()[self.place(start)].live,
            forall|i: int|
                0 <= i < self.frames().len() && (#[trigger] self.frames()[i]).start == start ==> i
                    == self.place(start),
    {
        let p = self.place(start);
        assert forall|i: int|
            0 <= i < self.frames().len() && (#[trigger] self.frames()[i]).start == start implies i
            == p by {
            if i < p {
                lemma_chain_order(self.model@, self.base as int, self.head as int, i, p);
            } else if p < i {
                lemma_chain_order(self.model@, self.base as int, self.head as int, p, i);
            }
        }
    }

    /// A ring of one slot, without frames.
    pub fn new() -> (r: Self)
        ensures
            r.wf(),
            r.frames().len() == 0,
            r.base_spec() == 0,
            r.head_spec() == 0,
            r.capacity() == 1,
    {
        let mut ring: Vec<RingElement<T>> = Vec::new();
        ring.push(RingElement::Vacant);
        proof {
            lemma2_to64();
        }
        FramedRing { ring, base: 0, head: 0, ring_size_2: 0, model: Ghost(Seq::empty()) }
    }

    /// The bits of an index that give its slot.
    fn mask(&self) -> (m: usize)
        requires
            self.storage_ok(),
        ensures
            m == self.ring@.len() - 1,
            forall|i: usize| (#[trigger] (i & m)) == i as int % (self.ring@.len() as int),
    {
        let m = self.ring.len() - 1;
        proof {
            let k = self.ring_size_2 as nat;
            assert forall|i: usize| (#[trigger] (i & m)) == i as int % (self.ring@.len() as int) by {
                vstd::bits::lemma_usize_low_bits_mask_is_mod(i, k);
            }
        }
        m
    }

    /// The header in the slot of index `i`.
    fn header_at(&self, i: usize) -> (h: FrameHeader)
        requires
            self.storage_ok(),
            at(self.ring@, i as int) is Header,
        ensures
            at(self.ring@, i as int) == RingElement::<T>::Header(h),
    {
        let m = self.mask();
        match &self.ring[i & m] {
            RingElement::Header(h) => *h,
            _ => FrameHeader { next: 0, is_live: false },
        }
    }

    /// Writes `re` to the slot of index `head` and moves the head one on. A
    /// ring that would be full afterwards is doubled first, each slot in use
    /// moving to the place that its index has in the larger ring.
    fn append_to_ring(&mut self, re: RingElement<T>)
        requires
            old(self).storage_ok(),
            old(self).head < usize::MAX,
            old(self).ring@.len() <= 0x4000_0000,
        ensures
            final(self).storage_ok(),
            final(self).base == old(self).base,
            final(self).head == old(self).head + 1,
            final(self).model == old(self).model,
            final(self).ring@.len() == (if old(self).head + 1 - old(self).base == old(self).ring@.len() {
                2 * old(self).ring@.len()
            } else {
                old(self).ring@.len()
            }),
            at(final(self).ring@, old(self).head as int) == re,
            forall|j: int|
                old(self).base <= j < old(self).head ==> at(final(self).ring@, j) == at(
                    old(self).ring@,
                    j,
                ),
    {
        let ghost slots0 = self.ring@;
        let ghost cap0 = self.ring@.len() as int;
        let len = self.ring.len();
        let mut mask = self.mask();
        let old_head = self.head;
        let base = self.base;

        // Progress the head!
        self.head = old_head + 1;

        let base_i = base & mask;
        let head_i = self.head & mask;

        proof {
            lemma_mod_equivalence(self.head as int, base as int, cap0);
            if self.head - base < cap0 {
                lemma_small_mod((self.head - base) as nat, cap0 as nat);
            } else {
                vstd::arithmetic::div_mod::lemma_mod_self_0(cap0);
            }
            let k = self.ring_size_2 as nat;
            lemma2_to64();
            if k > 30 {
                lemma_pow2_strictly_increases(30, k);
            }
        }
        if base_i == head_i {
            // Out of space: double the size, and move each slot in use to
            // the place of its index in the larger ring
            let new_len = len * 2;
            let mut new_ring: Vec<RingElement<T>> = Vec::with_capacity(new_len);
            let mut n: usize = 0;
            while n < new_len
                invariant
                    n <= new_len,
                    new_ring@.len() == n,
                    forall|x: int| 0 <= x < n ==> new_ring@[x] is Vacant,
                decreases new_len - n,
            {
                new_ring.push(RingElement::Vacant);
                n = n + 1;
            }
            let new_mask = new_len - 1;
            proof {
                let k = self.ring_size_2 as nat;
                lemma_pow2_unfold(k + 1);
                assert forall|i: usize| (#[trigger] (i & new_mask)) == i as int % (new_len as int) by {
                    vstd::bits::lemma_usize_low_bits_mask_is_mod(i, k + 1);
                }
            }
            let mut j: usize = base;
            while j < old_head
                invariant
                    self.base == base,
                    self.head == old_head + 1,
                    self.model == old(self).model,
                    self.ring_size_2 == old(self).ring_size_2,
                    self.ring_size_2 <= 30,
                    new_len == pow2((self.ring_size_2 + 1) as nat),
                    base <= j <= old_head,
                    old_head - base < cap0,
                    cap0 == len,
                    new_len == 2 * len,
                    new_mask == new_len - 1,
                    mask == len - 1,
                    self.ring@.len() == len,
                    new_ring@.len() == new_len,
                    forall|i: usize| (#[trigger] (i & new_mask)) == i as int % (new_len as int),
                    forall|i: usize| (#[trigger] (i & mask)) == i as int % (len as int),
                    forall|x: int| base <= x < j ==> at(new_ring@, x) == at(slots0, x),
                    forall|x: int| j <= x < old_head ==> at(self.ring@, x) == at(slots0, x),
                    slots0.len() == len,
                decreases old_head - j,
            {
                let ghost ring_before = self.ring@;
                let ghost new_before = new_ring@;
                let from = j & mask;
                let to = j & new_mask;
                let mut moved = RingElement::Vacant;
                core::mem::swap(&mut self.ring[from], &mut moved);
                new_ring[to] = moved;
                proof {
                    assert forall|x: int| base <= x < j + 1 implies at(new_ring@, x) == at(
                        slots0,
                        x,
                    ) by {
                        if x < j {
                            lemma_slots_distinct(x, j as int, new_len as int);
                            assert(at(new_before, x) == at(slots0, x));
                        }
                    }
                    assert forall|x: int| j + 1 <= x < old_head implies at(self.ring@, x) == at(
                        slots0,
                        x,
                    ) by {
                        lemma_slots_distinct(j as int, x, len as int);
                        assert(at(ring_before, x) == at(slots0, x));
                    }
                }
                j = j + 1;
            }
            self.ring = new_ring;
            self.ring_size_2 = self.ring_size_2 + 1;
            mask = new_mask;
        }
        let ghost ring_before = self.ring@;
        let to = old_head & mask;
        self.ring[to] = re;
        proof {
            let cap = self.ring@.len() as int;
            assert forall|x: int| base <= x < old_head implies at(self.ring@, x) == at(
                slots0,
                x,
            ) by {
                lemma_slots_distinct(x, old_head as int, cap);
                assert(at(ring_before, x) == at(slots0, x));
            }
        }
    }

    /// Opens a frame at the head: a header, and no elements yet.
    pub fn frame(&mut self) -> (f: RingFrameMut<T>)
        requires
            old(self).wf(),
            old(self).has_room(),
        ensures
            final(self).wf(),
            f.start_spec() == old(self).head_spec(),
            final(self).frames() == old(self).frames().push(
                FrameView {
                    start: old(self).head_spec() as nat,
                    next: (old(self).head_spec() + 1) as nat,
                    live: true,
                    items: Seq::empty(),
                },
            ),
            final(self).base_spec() == old(self).base_spec(),
            final(self).head_spec() == old(self).head_spec() + 1,
            final(self).capacity() == old(self).next_capacity(),
            final(self).holds(f.start_spec()),
            final(self).is_tail(f.start_spec()),
            final(self).frame_at(f.start_spec()).items == Seq::<T>::empty(),
            forall|s: int|
                #[trigger] old(self).holds(s) ==> final(self).holds(s) && final(self).frame_at(s)
                    == old(self).frame_at(s),
    {
        let start = self.head;
        let ghost before = *self;
        self.append_to_ring(RingElement::Header(FrameHeader { next: start + 1, is_live: true }));
        proof {
            let added = FrameView::<T> {
                start: start as nat,
                next: (start + 1) as nat,
                live: true,
                items: Seq::empty(),
            };
            self.model@ = self.model@.push(added);
            before.lemma_kept(*self);
            let m = self.model@;
            let n = before.model@.len() as int;
            assert(m[n] == added);
            assert forall|i: int| 0 <= i < m.len() - 1 implies #[trigger] linked(m, i) by {
                if i < n - 1 {
                    assert(linked(before.model@, i));
                }
            }
            assert(self.wf());
            self.lemma_holds_at(n);
            assert forall|s: int| #[trigger] before.holds(s) implies self.holds(s)
                && self.frame_at(s) == before.frame_at(s) by {
                before.lemma_place(s);
                let i = before.place(s);
                assert(m[i] == before.model@[i]);
                self.lemma_holds_at(i);
            }
        }
        RingFrameMut { f: RingFrame { start, pd: PhantomData } }
    }

    /// The frame that starts at `start` is the last one: it ends at the head.
    pub open spec fn is_tail(&self, start: int) -> bool {
        self.frames().len() > 0 && self.frames().last().start == start
    }

    /// What the slots of `self` held for its frames, the slots of `after`
    /// hold too.
    proof fn lemma_kept(self, after: Self)
        requires
            self.wf(),
            after.storage_ok(),
            after.base == self.base,
            self.head <= after.head,
            forall|j: int| self.base <= j < self.head ==> at(after.ring@, j) == at(self.ring@, j),
        ensures
            forall|i: int|
                0 <= i < self.model@.len() ==> frame_ok(after.ring@, #[trigger] self.model@[i]),
    {
        assert forall|i: int| 0 <= i < self.model@.len() implies frame_ok(
            after.ring@,
            #[trigger] self.model@[i],
        ) by {
            let f = self.model@[i];
            lemma_chain_order(self.model@, self.base as int, self.head as int, i, i);
            assert(frame_ok(self.ring@, f));
            assert forall|j: int| 0 <= j < f.items.len() implies #[trigger] at(
                after.ring@,
                f.start + 1 + j,
            ) == RingElement::Element(f.items[j]) by {
                assert(at(self.ring@, f.start + 1 + j) == RingElement::Element(f.items[j]));
            }
        }
    }

    /// Gives a complete frame the right to grow again, if it is the last
    /// frame of the ring; else the frame comes back as it is.
    pub fn try_promote(&mut self, frame: RingFrame<T>) -> (r: Result<RingFrameMut<T>, RingFrame<T>>)
        requires
            old(self).wf(),
            old(self).holds(frame.start_spec()),
        ensures
            *final(self) == *old(self),
            r is Ok <==> old(self).is_tail(frame.start_spec()),
            r matches Ok(m) ==> m.start_spec() == frame.start_spec(),
            r matches Err(f) ==> f == frame,
    {
        proof {
            self.lemma_place(frame.start as int);
            let p = self.place(frame.start as int);
            let n = self.model@.len() as int;
            assert(frame_ok(self.ring@, self.model@[p]));
            lemma_chain_order(self.model@, self.base as int, self.head as int, p, n - 1);
        }
        let header = self.header_at(frame.start);
        if header.next != self.head {
            Err(frame)
        } else {
            Ok(RingFrameMut { f: frame })
        }
    }

    /// Gives the last frame of the ring the right to grow again.
    pub fn promote(&mut self, frame: RingFrame<T>) -> (r: RingFrameMut<T>)
        requires
            old(self).wf(),
            old(self).holds(frame.start_spec()),
            old(self).is_tail(frame.start_spec()),
        ensures
            *final(self) == *old(self),
            r.start_spec() == frame.start_spec(),
    {
        match self.try_promote(frame) {
            Ok(m) => m,
            Err(f) => RingFrameMut { f },
        }
    }

    /// Index of the oldest frame's header; the head where there is no frame.
    pub fn base(&self) -> (r: usize)
        ensures
            r == self.base_spec(),
    {
        self.base
    }

    /// Index of the next slot to be written.
    pub fn head(&self) -> (r: usize)
        ensures
            r == self.head_spec(),
    {
        self.head
    }

    /// Number of slots in the ring.
    pub fn slots(&self) -> (r: usize)
        ensures
            r == self.capacity(),
    {
        self.ring.len()
    }
}

impl<T> RingFrame<T> {
    /// Index of the frame's header.
    pub closed spec fn start_spec(&self) -> int {
        self.start as int
    }

    /// Number of elements in the frame: the slots between its header and
    /// the place where it ends.
    pub fn len(&self, ring: &FramedRing<T>) -> (n: usize)
        requires
            ring.wf(),
            ring.holds(self.start_spec()),
        ensures
            n == ring.frame_at(self.start_spec()).items.len(),
            n == ring.frame_at(self.start_spec()).next - self.start_spec() - 1,
    {
        proof {
            ring.lemma_place(self.start as int);
            assert(frame_ok(ring.ring@, ring.model@[ring.place(self.start as int)]));
        }
        let header = ring.header_at(self.start);
        header.next - self.start - 1
    }

    /// The element at place `index` of the frame; none beyond the last.
    pub fn get<'a>(&self, ring: &'a FramedRing<T>, index: usize) -> (r: Option<&'a T>)
        requires
            ring.wf(),
            ring.holds(self.start_spec()),
        ensures
            ({
                let items = ring.frames()[ring.place(self.start_spec())].items;
                if index < items.len() {
                    r == Some(&items[index as int])
                } else {
                    r is None
                }
            }),
    {
        proof {
            ring.lemma_place(self.start as int);
            let f = ring.model@[ring.place(self.start as int)];
            assert(frame_ok(ring.ring@, f));
            if index < f.items.len() {
                assert(at(ring.ring@, f.start + 1 + index) == RingElement::Element(
                    f.items[index as int],
                ));
            }
        }
        let header = ring.header_at(self.start);
        if index >= header.next - self.start - 1 {
            None
        } else {
            let i = self.start + index + 1;
            let m = ring.mask();
            match &ring.ring[i & m] {
                RingElement::Element(e) => Some(e),
                _ => None,
            }
        }
    }

    /// A walk over the elements of the frame, first to last.
    pub fn iter(&self, ring: &FramedRing<T>) -> (it: RingFrameIter<T>)
        requires
            ring.wf(),
            ring.holds(self.start_spec()),
        ensures
            it.frame_start() == self.start_spec(),
            it.done() == 0,
            it.total() == ring.frames()[ring.place(self.start_spec())].items.len(),
    {
        proof {
            ring.lemma_place(self.start as int);
            assert(frame_ok(ring.ring@, ring.model@[ring.place(self.start as int)]));
        }
        let header = ring.header_at(self.start);
        RingFrameIter { i: self.start + 1, end: header.next, start: Ghost(self.start as nat), pd: PhantomData }
    }

    /// The element at place `index` of the frame, which must have one there.
    pub fn get_unchecked<'a>(&self, ring: &'a FramedRing<T>, index: usize) -> (r: &'a T)
        requires
            ring.wf(),
            ring.holds(self.start_spec()),
            index < ring.frames()[ring.place(self.start_spec())].items.len(),
        ensures
            *r == ring.frames()[ring.place(self.start_spec())].items[index as int],
    {
        proof {
            ring.lemma_place(self.start as int);
            let f = ring.model@[ring.place(self.start as int)];
            assert(frame_ok(ring.ring@, f));
            assert(at(ring.ring@, f.start + 1 + index) == RingElement::Element(
                f.items[index as int],
            ));
            lemma_chain_order(
                ring.model@,
                ring.base as int,
                ring.head as int,
                ring.place(self.start as int),
                ring.place(self.start as int),
            );
        }
        let i = self.start + index + 1;
        let m = ring.mask();
        match &ring.ring[i & m] {
            RingElement::Element(e) => e,
            _ => vstd::pervasive::unreached(),
        }
    }

    /// Gives the frame up. The frame at the base goes together with every
    /// frame after it that was given up before; the frame at the head gives
    /// its slots back; any other frame keeps its slots until the base passes
    /// it. Its elements are dropped.
    pub fn release(self, ring: &mut FramedRing<T>)
        requires
            old(ring).wf(),
            old(ring).holds(self.start_spec()),
        ensures
            final(ring).wf(),
            (final(ring).frames(), final(ring).base_spec(), final(ring).head_spec())
                == release_spec(
                old(ring).frames(),
                old(ring).base_spec(),
                old(ring).head_spec(),
                old(ring).place(self.start_spec()),
            ),
            final(ring).capacity() == old(ring).capacity(),
            forall|s: int|
                #[trigger] old(ring).holds(s) && s != self.start_spec() ==> final(ring).holds(s)
                    && final(ring).frame_at(s) == old(ring).frame_at(s),
    {
        let _ = self.into_iter(ring);
    }

    /// Takes the elements out of the frame, to be handed out first to last,
    /// and gives the frame up as [`RingFrame::release`] does.
    pub fn into_iter(self, ring: &mut FramedRing<T>) -> (it: RingFrameIntoIter<T>)
        requires
            old(ring).wf(),
            old(ring).holds(self.start_spec()),
        ensures
            final(ring).wf(),
            it.remaining() == old(ring).frames()[old(ring).place(self.start_spec())].items,
            (final(ring).frames(), final(ring).base_spec(), final(ring).head_spec())
                == release_spec(
                old(ring).frames(),
                old(ring).base_spec(),
                old(ring).head_spec(),
                old(ring).place(self.start_spec()),
            ),
            final(ring).capacity() == old(ring).capacity(),
            forall|s: int|
                #[trigger] old(ring).holds(s) && s != self.start_spec() ==> final(ring).holds(s)
                    && final(ring).frame_at(s) == old(ring).frame_at(s),
    {
        let ghost before = *ring;
        let ghost model0 = ring.model@;
        let ghost p = ring.place(self.start as int);
        let ghost f0 = model0[p];
        let ghost cap = ring.ring@.len() as int;
        proof {
            ring.lemma_place(self.start as int);
            assert(frame_ok(ring.ring@, f0));
            lemma_chain_order(model0, ring.base as int, ring.head as int, p, p);
            lemma_release_chained(model0, ring.base as int, ring.head as int, p);
        }
        let header = ring.header_at(self.start);
        let m = ring.mask();

        // Take all of our contents out
        let mut rest: VecDeque<T> = VecDeque::new();
        let mut i: usize = self.start + 1;
        while i < header.next
            invariant
                rest@ == f0.items.take(i - self.start - 1),
                f0 == before.model@[p],
                0 <= p < before.model@.len(),
                f0.start == self.start,
                f0.next == header.next,
                f0.live,
                before.wf(),
                self.start < i <= header.next,
                header.next <= ring.head,
                ring.base <= self.start,
                ring.base == before.base,
                ring.head == before.head,
                ring.model == before.model,
                ring.ring_size_2 == before.ring_size_2,
                ring.ring@.len() == cap,
                cap == before.ring@.len(),
                before.storage_ok(),
                m == cap - 1,
                forall|x: usize| (#[trigger] (x & m)) == x as int % cap,
                forall|x: int|
                    before.base <= x < before.head && !(self.start < x < i) ==> at(ring.ring@, x)
                        == at(before.ring@, x),
            decreases header.next - i,
        {
            let ghost ring_before = ring.ring@;
            let to = i & m;
            proof {
                assert(frame_ok(before.ring@, f0));
                let j = i - self.start - 1;
                assert(at(before.ring@, f0.start + 1 + j) == RingElement::Element(f0.items[j]));
                assert(at(ring.ring@, i as int) == at(before.ring@, i as int));
            }
            let mut moved = RingElement::Vacant;
            core::mem::swap(&mut ring.ring[to], &mut moved);
            match moved {
                RingElement::Element(e) => {
                    rest.push_back(e);
                },
                _ => {},
            }
            proof {
                let j = i - self.start - 1;
                assert(rest@ =~= f0.items.take(j + 1));
                assert forall|x: int|
                    before.base <= x < before.head && !(self.start < x < i + 1) implies at(
                    ring.ring@,
                    x,
                ) == at(before.ring@, x) by {
                    if x < i {
                        lemma_slots_distinct(x, i as int, cap);
                    } else {
                        lemma_slots_distinct(i as int, x, cap);
                    }
                    assert(at(ring_before, x) == at(before.ring@, x));
                }
            }
            i = i + 1;
        }
        if ring.base == self.start {
            // We are the base: the new base is the first frame after us that
            // is still held, or the head
            proof {
                lemma_first_live(model0, 1);
                if 1 < model0.len() {
                    assert(linked(model0, 0));
                }
            }
            let mut idx: usize = header.next;
            let ghost k: int = 1;
            proof {
                if 1 < model0.len() {
                    lemma_chain_order(model0, before.base as int, before.head as int, 1, 1);
                }
            }
            while idx < ring.head
                invariant
                    1 <= k <= model0.len(),
                    k <= first_live(model0, 1),
                    first_live(model0, k) == first_live(model0, 1),
                    k < model0.len() ==> idx == model0[k].start && idx < ring.head,
                    k == model0.len() ==> idx == ring.head,
                    idx <= ring.head,
                    ring.base == before.base,
                    ring.head == before.head,
                    ring.model == before.model,
                    ring.ring_size_2 == before.ring_size_2,
                    ring.ring@.len() == cap,
                    before.wf(),
                    model0 == before.model@,
                    p == 0,
                    f0 == model0[0],
                    self.start == f0.start,
                    ring.storage_ok(),
                    forall|x: int|
                        before.base <= x < before.head && !(f0.start < x < f0.next) ==> at(
                            ring.ring@,
                            x,
                        ) == at(before.ring@, x),
                ensures
                    k == first_live(model0, 1),
                    k < model0.len() ==> idx == model0[k].start,
                    k == model0.len() ==> idx == ring.head,
                decreases model0.len() - k,
            {
                proof {
                    lemma_chain_order(model0, before.base as int, before.head as int, 0, k);
                    lemma_chain_order(model0, before.base as int, before.head as int, k, k);
                    assert(frame_ok(before.ring@, model0[k]));
                    if k + 1 < model0.len() {
                        assert(linked(model0, k));
                    }
                }
                let working_header = ring.header_at(idx);
                if working_header.is_live {
                    break ;
                }
                idx = working_header.next;
                proof {
                    lemma_first_live(model0, k + 1);
                    k = k + 1;
                    if k < model0.len() {
                        lemma_chain_order(model0, before.base as int, before.head as int, k, k);
                    }
                }
            }
            ring.base = idx;
            proof {
                ring.model@ = model0.skip(k);
                let m1 = ring.model@;
                assert forall|x: int| 0 <= x < m1.len() implies frame_ok(
                    ring.ring@,
                    #[trigger] m1[x],
                ) by {
                    let f = model0[x + k];
                    assert(m1[x] == f);
                    assert(frame_ok(before.ring@, f));
                    lemma_chain_order(model0, before.base as int, before.head as int, 0, x + k);
                    lemma_chain_order(model0, before.base as int, before.head as int, x + k, x + k);
                    assert forall|j: int| 0 <= j < f.items.len() implies #[trigger] at(
                        ring.ring@,
                        f.start + 1 + j,
                    ) == RingElement::Element(f.items[j]) by {
                        assert(at(before.ring@, f.start + 1 + j) == RingElement::Element(
                            f.items[j],
                        ));
                    }
                }
                if k < model0.len() {
                    lemma_chain_order(model0, before.base as int, before.head as int, 0, k);
                }
            }
        } else if ring.head == header.next {
            // The head of the line: roll the head back to the header
            ring.head = self.start;
            proof {
                lemma_chain_order(model0, before.base as int, before.head as int, 0, p);
                if p < model0.len() - 1 {
                    lemma_chain_order(
                        model0,
                        before.base as int,
                        before.head as int,
                        p + 1,
                        model0.len() - 1,
                    );
                    assert(linked(model0, p));
                }
                ring.model@ = model0.drop_last();
                let m1 = ring.model@;
                assert forall|x: int| 0 <= x < m1.len() implies frame_ok(
                    ring.ring@,
                    #[trigger] m1[x],
                ) by {
                    let f = model0[x];
                    assert(m1[x] == f);
                    assert(frame_ok(before.ring@, f));
                    lemma_chain_order(model0, before.base as int, before.head as int, x, p - 1);
                    lemma_chain_order(model0, before.base as int, before.head as int, x, x);
                    assert(linked(model0, p - 1));
                    assert forall|j: int| 0 <= j < f.items.len() implies #[trigger] at(
                        ring.ring@,
                        f.start + 1 + j,
                    ) == RingElement::Element(f.items[j]) by {
                        assert(at(before.ring@, f.start + 1 + j) == RingElement::Element(
                            f.items[j],
                        ));
                    }
                }
            }
        } else {
            // Neither: the slots stay taken until the base passes them
            let ghost ring_before = ring.ring@;
            let to = self.start & m;
            ring.ring[to] = RingElement::Header(FrameHeader { next: header.next, is_live: false });
            proof {
                lemma_chain_order(model0, before.base as int, before.head as int, 0, p);
                lemma_chain_order(
                    model0,
                    before.base as int,
                    before.head as int,
                    p,
                    model0.len() - 1,
                );
                let dead = FrameView::<T> {
                    start: f0.start,
                    next: f0.next,
                    live: false,
                    items: Seq::empty(),
                };
                ring.model@ = model0.update(p, dead);
                let m1 = ring.model@;
                assert forall|x: int| 0 <= x < m1.len() implies frame_ok(
                    ring.ring@,
                    #[trigger] m1[x],
                ) by {
                    if x != p {
                        let f = model0[x];
                        assert(m1[x] == f);
                        assert(frame_ok(before.ring@, f));
                        lemma_chain_order(model0, before.base as int, before.head as int, x, x);
                        if x < p {
                            lemma_chain_order(model0, before.base as int, before.head as int, x, p);
                        } else {
                            lemma_chain_order(model0, before.base as int, before.head as int, p, x);
                        }
                        lemma_slots_distinct(
                            if x < p {
                                f.start as int
                            } else {
                                f0.start as int
                            },
                            if x < p {
                                f0.start as int
                            } else {
                                f.start as int
                            },
                            cap,
                        );
                        assert(at(ring_before, f.start as int) == at(before.ring@, f.start as int));
                        assert forall|j: int| 0 <= j < f.items.len() implies #[trigger] at(
                            ring.ring@,
                            f.start + 1 + j,
                        ) == RingElement::Element(f.items[j]) by {
                            let y = f.start + 1 + j;
                            if y < f0.start {
                                lemma_slots_distinct(y, f0.start as int, cap);
                            } else {
                                lemma_slots_distinct(f0.start as int, y, cap);
                            }
                            assert(at(ring_before, y) == at(before.ring@, y));
                            assert(at(before.ring@, y) == RingElement::Element(f.items[j]));
                        }
                    }
                }
            }
        }
        proof {
            assert(rest@ =~= f0.items);
            assert(ring.wf());
            let m1 = ring.model@;
            let n = model0.len() as int;
            assert forall|s: int| #[trigger] before.holds(s) && s != self.start as int implies ring.holds(
                s,
            ) && ring.frame_at(s) == before.frame_at(s) by {
                before.lemma_place(s);
                let j = before.place(s);
                if p == 0 {
                    let k = first_live(model0, 1);
                    lemma_first_live(model0, 1);
                    if j < k {
                        assert(!model0[j].live);
                    }
                    assert(m1[j - k] == model0[j]);
                    ring.lemma_holds_at(j - k);
                } else {
                    if p == n - 1 {
                        assert(m1[j] == model0[j]);
                    } else {
                        assert(m1[j] == model0[j]);
                    }
                    ring.lemma_holds_at(j);
                }
            }
        }
        RingFrameIntoIter { rest }
    }
}

impl<T> RingFrameMut<T> {
    /// Index of the frame's header.
    pub closed spec fn start_spec(&self) -> int {
        self.f.start as int
    }

    /// The frame, as a complete frame sees it.
    pub fn inner(&self) -> (r: &RingFrame<T>)
        ensures
            r.start_spec() == self.start_spec(),
    {
        &self.f
    }

    /// Appends an element to the frame, at the head of the ring.
    pub fn append(&self, ring: &mut FramedRing<T>, element: T)
        requires
            old(ring).wf(),
            old(ring).has_room(),
            old(ring).holds(self.start_spec()),
            old(ring).is_tail(self.start_spec()),
        ensures
            final(ring).wf(),
            final(ring).base_spec() == old(ring).base_spec(),
            final(ring).head_spec() == old(ring).head_spec() + 1,
            final(ring).frames() == old(ring).frames().update(
                old(ring).frames().len() - 1,
                FrameView {
                    start: old(ring).frames().last().start,
                    next: old(ring).frames().last().next + 1,
                    live: true,
                    items: old(ring).frames().last().items.push(element),
                },
            ),
            final(ring).holds(self.start_spec()),
            final(ring).is_tail(self.start_spec()),
            final(ring).capacity() == old(ring).next_capacity(),
            final(ring).frame_at(self.start_spec()).items == old(ring).frame_at(
                self.start_spec(),
            ).items.push(element),
            forall|s: int|
                #[trigger] old(ring).holds(s) && s != self.start_spec() ==> final(ring).holds(s)
                    && final(ring).frame_at(s) == old(ring).frame_at(s),
    {
        let ghost before = *ring;
        let ghost model0 = ring.model@;
        let ghost n = model0.len() as int;
        let ghost last = model0[n - 1];
        proof {
            ring.lemma_place(self.f.start as int);
            assert(frame_ok(ring.ring@, last));
            lemma_chain_order(model0, ring.base as int, ring.head as int, n - 1, n - 1);
        }
        let old_head = ring.head;
        ring.append_to_ring(RingElement::Element(element));
        let ghost mid = *ring;
        let m = ring.mask();
        let to = self.f.start & m;
        ring.ring[to] = RingElement::Header(FrameHeader { next: old_head + 1, is_live: true });
        proof {
            let cap = ring.ring@.len() as int;
            let grown = FrameView::<T> {
                start: last.start,
                next: last.next + 1,
                live: true,
                items: last.items.push(element),
            };
            ring.model@ = model0.update(n - 1, grown);
            let m1 = ring.model@;
            before.lemma_kept(mid);
            assert forall|x: int| 0 <= x < m1.len() implies frame_ok(
                ring.ring@,
                #[trigger] m1[x],
            ) by {
                if x < n - 1 {
                    let f = model0[x];
                    assert(m1[x] == f);
                    assert(frame_ok(mid.ring@, f));
                    lemma_chain_order(model0, before.base as int, before.head as int, x, n - 1);
                    lemma_chain_order(model0, before.base as int, before.head as int, x, x);
                    lemma_slots_distinct(f.start as int, last.start as int, cap);
                    assert forall|j: int| 0 <= j < f.items.len() implies #[trigger] at(
                        ring.ring@,
                        f.start + 1 + j,
                    ) == RingElement::Element(f.items[j]) by {
                        let y = f.start + 1 + j;
                        lemma_slots_distinct(y, last.start as int, cap);
                        assert(at(mid.ring@, y) == RingElement::Element(f.items[j]));
                    }
                } else {
                    assert(m1[x] == grown);
                    assert forall|j: int| 0 <= j < grown.items.len() implies #[trigger] at(
                        ring.ring@,
                        grown.start + 1 + j,
                    ) == RingElement::Element(grown.items[j]) by {
                        let y = grown.start + 1 + j;
                        lemma_slots_distinct(last.start as int, y, cap);
                        if j < last.items.len() {
                            assert(at(before.ring@, y) == RingElement::Element(last.items[j]));
                            assert(at(mid.ring@, y) == at(before.ring@, y));
                        }
                    }
                }
            }
            assert forall|i: int| 0 <= i < m1.len() - 1 implies #[trigger] linked(m1, i) by {
                assert(linked(model0, i));
            }
            assert(m1[n - 1] == grown);
            assert(ring.frames()[n - 1].start == self.f.start && ring.frames()[n - 1].live);
            assert(ring.wf());
            ring.lemma_holds_at(n - 1);
            assert(before.place(self.f.start as int) == n - 1);
            assert forall|s: int| #[trigger] before.holds(s) && s != self.f.start as int implies ring.holds(
                s,
            ) && ring.frame_at(s) == before.frame_at(s) by {
                before.lemma_place(s);
                let j = before.place(s);
                assert(m1[j] == model0[j]);
                ring.lemma_holds_at(j);
            }
        }
    }

    /// Gives the frame up, as [`RingFrame::release`] does.
    pub fn release(self, ring: &mut FramedRing<T>)
        requires
            old(ring).wf(),
            old(ring).holds(self.start_spec()),
        ensures
            final(ring).wf(),
            (final(ring).frames(), final(ring).base_spec(), final(ring).head_spec())
                == release_spec(
                old(ring).frames(),
                old(ring).base_spec(),
                old(ring).head_spec(),
                old(ring).place(self.start_spec()),
            ),
            final(ring).capacity() == old(ring).capacity(),
            forall|s: int|
                #[trigger] old(ring).holds(s) && s != self.start_spec() ==> final(ring).holds(s)
                    && final(ring).frame_at(s) == old(ring).frame_at(s),
    {
        self.f.release(ring)
    }

    /// Completes the frame and opens a new one after it.
    pub fn next(self, ring: &mut FramedRing<T>) -> (r: (RingFrame<T>, RingFrameMut<T>))
        requires
            old(ring).wf(),
            old(ring).has_room(),
            old(ring).holds(self.start_spec()),
        ensures
            final(ring).wf(),
            r.0.start_spec() == self.start_spec(),
            r.1.start_spec() == old(ring).head_spec(),
            final(ring).frames() == old(ring).frames().push(
                FrameView {
                    start: old(ring).head_spec() as nat,
                    next: (old(ring).head_spec() + 1) as nat,
                    live: true,
                    items: Seq::empty(),
                },
            ),
            final(ring).base_spec() == old(ring).base_spec(),
            final(ring).head_spec() == old(ring).head_spec() + 1,
            final(ring).capacity() == old(ring).next_capacity(),
            final(ring).holds(r.0.start_spec()),
            final(ring).holds(r.1.start_spec()),
            final(ring).is_tail(r.1.start_spec()),
            final(ring).frame_at(r.1.start_spec()).items == Seq::<T>::empty(),
            forall|s: int|
                #[trigger] old(ring).holds(s) ==> final(ring).holds(s) && final(ring).frame_at(s)
                    == old(ring).frame_at(s),
    {
        let ghost p = ring.place(self.f.start as int);
        proof {
            ring.lemma_place(self.f.start as int);
        }
        let opened = ring.frame();
        proof {
            assert(ring.frames()[p].start == self.f.start && ring.frames()[p].live);
        }
        (self.f, opened)
    }
}

impl<T> RingFrameIter<T> {
    /// Index of the header of the frame that is walked.
    pub closed spec fn frame_start(&self) -> int {
        self.start@ as int
    }

    /// Number of elements handed out so far.
    pub closed spec fn done(&self) -> int {
        self.i - self.start@ - 1
    }

    /// Number of elements that the frame had when the walk began.
    pub closed spec fn total(&self) -> int {
        self.end - self.start@ - 1
    }

    /// The next element of the frame; none after the last.
    pub fn next<'a>(&mut self, ring: &'a FramedRing<T>) -> (r: Option<&'a T>)
        requires
            ring.wf(),
            ring.holds(old(self).frame_start()),
            0 <= old(self).done(),
            old(self).total() <= ring.frames()[ring.place(old(self).frame_start())].items.len(),
        ensures
            final(self).frame_start() == old(self).frame_start(),
            final(self).total() == old(self).total(),
            old(self).done() < old(self).total() ==> r == Some(
                &ring.frames()[ring.place(old(self).frame_start())].items[old(self).done()],
            ) && final(self).done() == old(self).done() + 1,
            old(self).done() >= old(self).total() ==> r is None && final(self).done() == old(self).done(),
    {
        if self.i >= self.end {
            None
        } else {
            proof {
                ring.lemma_place(self.start@ as int);
                let f = ring.model@[ring.place(self.start@ as int)];
                assert(frame_ok(ring.ring@, f));
                assert(at(ring.ring@, f.start + 1 + self.done()) == RingElement::Element(
                    f.items[self.done()],
                ));
            }
            let m = ring.mask();
            let item = match &ring.ring[self.i & m] {
                RingElement::Element(e) => Some(e),
                _ => None,
            };
            self.i = self.i + 1;
            item
        }
    }
}

impl<T> RingFrameIntoIter<T> {
    /// The elements not yet handed out.
    pub closed spec fn remaining(&self) -> Seq<T> {
        self.rest@
    }

    /// The next element; none after the last.
    pub fn next(&mut self) -> (r: Option<T>)
        ensures
            old(self).remaining().len() == 0 ==> r is None && final(self).remaining().len() == 0,
            old(self).remaining().len() > 0 ==> r == Some(old(self).remaining()[0])
                && final(self).remaining() == old(self).remaining().skip(1),
    {
        let r = self.rest.pop_front();
        proof {
            let before = old(self).rest@;
            if before.len() > 0 {
                assert(before.subrange(1, before.len() as int) =~= before.skip(1));
            }
        }
        r
    }
}

} // verus!
