//! The physical frames that page tables live in, and their allocator.
//!
//! A `PhysMemory` stands for a run of physical frames, each seen as one
//! page-table node of 512 entries, together with the record of which frames
//! are handed out. A frame is handed out zeroed, as a `FrameTracker`, and
//! comes back by `frame_dealloc`.

use vstd::prelude::*;
use vstd::set_lib::*;
use crate::address::PhysPageNum;
use crate::entry::PageTableEntry;

verus! {

/// Number of entries in a page-table node.
pub const NODE_ENTRIES: usize = 512;

/// One more than the largest physical page number.
pub const PPN_LIMIT: u64 = 0x0000_1000_0000_0000;

/// The handle of one frame that the allocator handed out. Who holds the
/// handle owns the frame.
#[derive(Debug)]
pub struct FrameTracker {
    pub ppn: PhysPageNum,
}

/// What a `PhysMemory` holds, as mathematics: frame `i` has the page number
/// `start + i`, is handed out when `used[i]`, and holds the node `nodes[i]`.
pub struct MemoryState {
    pub start: int,
    pub used: Seq<bool>,
    pub nodes: Seq<Seq<PageTableEntry>>,
}

/// A node of 512 empty entries.
pub open spec fn zero_node() -> Seq<PageTableEntry> {
    Seq::new(512, |j: int| PageTableEntry { bits: 0 })
}

impl MemoryState {
    /// Every frame holds 512 entries and has a page number of at most 44
    /// bits.
    pub open spec fn inv(self) -> bool {
        &&& 0 <= self.start
        &&& self.start + self.used.len() <= PPN_LIMIT
        &&& self.nodes.len() == self.used.len()
        &&& forall|i: int| 0 <= i < self.nodes.len() ==> (#[trigger] self.nodes[i]).len() == 512
    }

    /// A memory of `n` frames from page number `start` on, all free and
    /// zeroed.
    pub open spec fn fresh(start: int, n: nat) -> MemoryState {
        MemoryState {
            start,
            used: Seq::new(n, |i: int| false),
            nodes: Seq::new(n, |i: int| zero_node()),
        }
    }

    /// Whether the frame with page number `p` is part of this memory.
    pub open spec fn holds(self, p: PhysPageNum) -> bool {
        self.start <= p.0 < self.start + self.used.len()
    }

    /// Whether the frame is part of this memory and handed out.
    pub open spec fn allocated(self, p: PhysPageNum) -> bool {
        self.holds(p) && self.used[p.0 - self.start]
    }

    /// Entry `i` of the node in frame `p`.
    pub open spec fn entry(self, p: PhysPageNum, i: int) -> PageTableEntry {
        self.nodes[p.0 - self.start][i]
    }

    /// The frames that are not handed out, by their position in the memory.
    pub open spec fn free_set(self) -> Set<int> {
        Set::new(|i: int| 0 <= i < self.used.len() && !self.used[i])
    }

    /// How many frames are not handed out.
    pub open spec fn free_count(self) -> nat {
        self.free_set().len()
    }

    /// Whether `p` is the free frame with the lowest page number.
    pub open spec fn lowest_free(self, p: PhysPageNum) -> bool {
        &&& self.holds(p)
        &&& !self.allocated(p)
        &&& forall|i: int| 0 <= i < p.0 - self.start ==> #[trigger] self.used[i]
    }

    /// The free frame with the lowest page number, where one is free.
    pub open spec fn first_free(self) -> PhysPageNum {
        choose|p: PhysPageNum| self.lowest_free(p)
    }

    /// There is at most one free frame with the lowest page number.
    pub proof fn lemma_first_free(self, p: PhysPageNum)
        requires
            self.lowest_free(p),
        ensures
            self.first_free() == p,
    {
        let q = self.first_free();
        assert(self.lowest_free(q));
        if q.0 < p.0 {
            assert(self.used[q.0 - self.start]);
        }
        if p.0 < q.0 {
            assert(self.used[p.0 - self.start]);
        }
        assert(q.0 == p.0);
    }

    /// The memory after frame `p` has been handed out: the frame is marked
    /// and zeroed.
    pub open spec fn hand_out(self, p: PhysPageNum) -> MemoryState {
        MemoryState {
            start: self.start,
            used: self.used.update(p.0 - self.start, true),
            nodes: self.nodes.update(p.0 - self.start, zero_node()),
        }
    }

    /// The memory after frame `p` has come back: what it holds stays.
    pub open spec fn take_back(self, p: PhysPageNum) -> MemoryState {
        MemoryState {
            start: self.start,
            used: self.used.update(p.0 - self.start, false),
            nodes: self.nodes,
        }
    }

    /// The memory after entry `i` of the node in frame `p` has been set to
    /// `e`.
    pub open spec fn write(self, p: PhysPageNum, i: int, e: PageTableEntry) -> MemoryState {
        MemoryState {
            start: self.start,
            used: self.used,
            nodes: self.nodes.update(p.0 - self.start, self.nodes[p.0 - self.start].update(i, e)),
        }
    }

    /// Setting an entry changes that entry and nothing else.
    pub proof fn lemma_write(self, p: PhysPageNum, i: int, e: PageTableEntry)
        requires
            self.inv(),
            self.holds(p),
            0 <= i < 512,
        ensures
            self.write(p, i, e).inv(),
            self.write(p, i, e).start == self.start,
            self.write(p, i, e).used == self.used,
            self.write(p, i, e).entry(p, i) == e,
            forall|q: PhysPageNum, x: int|
                self.holds(q) && 0 <= x < 512 && !(q == p && x == i) ==> #[trigger] self.write(
                    p,
                    i,
                    e,
                ).entry(q, x) == self.entry(q, x),
    {
        let m = self.write(p, i, e);
        assert forall|q: PhysPageNum, x: int|
            self.holds(q) && 0 <= x < 512 && !(q == p && x == i) implies #[trigger] m.entry(q, x)
            == self.entry(q, x) by {
            if q.0 == p.0 {
                assert(q == p);
            }
        }
    }

    /// Handing out a frame marks and zeroes that frame and changes nothing
    /// else.
    pub proof fn lemma_hand_out(self, p: PhysPageNum)
        requires
            self.inv(),
            self.holds(p),
        ensures
            self.hand_out(p).inv(),
            self.hand_out(p).start == self.start,
            self.hand_out(p).used.len() == self.used.len(),
            self.hand_out(p).allocated(p),
            forall|q: PhysPageNum| q != p ==> self.hand_out(p).allocated(q) == self.allocated(q),
            forall|x: int| 0 <= x < 512 ==> (#[trigger] self.hand_out(p).entry(p, x)).bits == 0,
            forall|q: PhysPageNum, x: int|
                self.holds(q) && q != p ==> #[trigger] self.hand_out(p).entry(q, x) == self.entry(
                    q,
                    x,
                ),
    {
        let m = self.hand_out(p);
        assert forall|q: PhysPageNum| q != p implies m.allocated(q) == self.allocated(q) by {
            if q.0 == p.0 {
                assert(q == p);
            }
        }
        assert forall|q: PhysPageNum, x: int| self.holds(q) && q != p implies #[trigger] m.entry(
            q,
            x,
        ) == self.entry(q, x) by {
            if q.0 == p.0 {
                assert(q == p);
            }
        }
    }

    /// Taking a frame back clears its mark and changes nothing else.
    pub proof fn lemma_take_back(self, p: PhysPageNum)
        requires
            self.inv(),
            self.holds(p),
        ensures
            self.take_back(p).inv(),
            self.take_back(p).start == self.start,
            self.take_back(p).used.len() == self.used.len(),
            self.take_back(p).nodes == self.nodes,
            !self.take_back(p).allocated(p),
            forall|q: PhysPageNum| q != p ==> self.take_back(p).allocated(q) == self.allocated(q),
    {
        let m = self.take_back(p);
        assert forall|q: PhysPageNum| q != p implies m.allocated(q) == self.allocated(q) by {
            if q.0 == p.0 {
                assert(q == p);
            }
        }
    }

    /// The free frames are finitely many, at most as many as there are
    /// frames.
    pub proof fn lemma_free_set_finite(self)
        ensures
            self.free_set().finite(),
            self.free_count() <= self.used.len(),
    {
        let all = set_int_range(0, self.used.len() as int);
        lemma_int_range(0, self.used.len() as int);
        assert(self.free_set().subset_of(all));
        lemma_len_subset(self.free_set(), all);
    }

    /// Handing out a free frame leaves one free frame less; taking a handed
    /// out frame back leaves one more.
    pub proof fn lemma_free_count_step(self, p: PhysPageNum)
        requires
            self.holds(p),
        ensures
            !self.allocated(p) ==> self.free_count() >= 1 && self.hand_out(p).free_count()
                == self.free_count() - 1,
            self.allocated(p) ==> self.take_back(p).free_count() == self.free_count() + 1,
    {
        let i = p.0 - self.start;
        self.lemma_free_set_finite();
        if !self.allocated(p) {
            assert(self.free_set().contains(i));
            assert(self.hand_out(p).free_set() =~= self.free_set().remove(i));
        } else {
            self.take_back(p).lemma_free_set_finite();
            assert(self.take_back(p).free_set().contains(i));
            assert(self.free_set() =~= self.take_back(p).free_set().remove(i));
        }
    }

    /// No frame is free exactly when the count of free frames is zero.
    pub proof fn lemma_free_count_zero(self)
        ensures
            self.free_count() == 0 <==> (forall|i: int|
                0 <= i < self.used.len() ==> #[trigger] self.used[i]),
    {
        self.lemma_free_set_finite();
        if self.free_count() == 0 {
            self.free_set().lemma_len0_is_empty();
            assert forall|i: int| 0 <= i < self.used.len() implies #[trigger] self.used[i] by {
                assert(!self.free_set().contains(i));
            }
        }
        if forall|i: int| 0 <= i < self.used.len() ==> #[trigger] self.used[i] {
            assert(self.free_set() =~= Set::<int>::empty());
        }
    }
}

/// A run of physical frames and the record of which are handed out.
pub struct PhysMemory {
    start: u64,
    used: Vec<bool>,
    words: Vec<PageTableEntry>,
}

impl View for PhysMemory {
    type V = MemoryState;

    closed spec fn view(&self) -> MemoryState {
        MemoryState {
            start: self.start as int,
            used: self.used@,
            nodes: Seq::new(
                self.used@.len(),
                |i: int| self.words@.subrange(i * 512, i * 512 + 512),
            ),
        }
    }
}

impl PhysMemory {
    /// The entries lie one node after the other.
    pub closed spec fn laid_out(&self) -> bool {
        self.words@.len() == self.used@.len() * 512
    }

    /// The memory is well formed.
    pub open spec fn wf(&self) -> bool {
        self@.inv() && self.laid_out()
    }

    proof fn lemma_bounds(&self)
        requires
            self.wf(),
        ensures
            self.used@.len() == self.used.len(),
            self.words@.len() == self.words.len(),
            self.used@.len() * 512 <= usize::MAX,
    {
    }

    /// A memory of `frames` frames, the first with page number `start`, all
    /// free and zeroed. There is none where a page number would pass 44 bits
    /// or the entries would pass what a `Vec` can index.
    pub fn new(start: PhysPageNum, frames: usize) -> (r: Option<Self>)
        ensures
            r.is_some() <==> start.0 + frames <= PPN_LIMIT && frames * 512 <= usize::MAX,
            r.is_some() ==> r.unwrap().wf() && r.unwrap()@ == MemoryState::fresh(
                start.0 as int,
                frames as nat,
            ),
    {
        if start.0 > PPN_LIMIT || frames > usize::MAX / NODE_ENTRIES {
            return None;
        }
        let room: u64 = PPN_LIMIT - start.0;
        if frames as u64 > room {
            return None;
        }
        let mut used: Vec<bool> = Vec::new();
        let mut words: Vec<PageTableEntry> = Vec::new();
        let mut i: usize = 0;
        while i < frames
            invariant
                i <= frames,
                frames * 512 <= usize::MAX,
                used@.len() == i,
                words@.len() == i * 512,
                forall|k: int| 0 <= k < used@.len() ==> !used@[k],
                forall|k: int| 0 <= k < words@.len() ==> words@[k].bits == 0,
            decreases frames - i,
        {
            used.push(false);
            let mut j: usize = 0;
            while j < NODE_ENTRIES
                invariant
                    i < frames,
                    frames * 512 <= usize::MAX,
                    j <= 512,
                    words@.len() == i * 512 + j,
                    forall|k: int| 0 <= k < words@.len() ==> words@[k].bits == 0,
                decreases 512 - j,
            {
                words.push(PageTableEntry::empty());
                j += 1;
            }
            i += 1;
        }
        let m = PhysMemory { start: start.0, used, words };
        proof {
            assert(m@.nodes =~~= MemoryState::fresh(start.0 as int, frames as nat).nodes);
            assert(m@.used =~= MemoryState::fresh(start.0 as int, frames as nat).used);
        }
        Some(m)
    }

    /// Whether the frame with page number `ppn` is part of this memory.
    pub fn contains(&self, ppn: PhysPageNum) -> (r: bool)
        requires
            self.wf(),
        ensures
            r == self@.holds(ppn),
    {
        ppn.0 >= self.start && ppn.0 - self.start < self.used.len() as u64
    }

    /// Whether the frame is part of this memory and handed out.
    pub fn is_allocated(&self, ppn: PhysPageNum) -> (r: bool)
        requires
            self.wf(),
        ensures
            r == self@.allocated(ppn),
    {
        if self.contains(ppn) {
            assert(self.used@.len() == self.used.len());
            self.used[(ppn.0 - self.start) as usize]
        } else {
            false
        }
    }

    /// How many frames are free.
    pub fn free_frames(&self) -> (r: usize)
        requires
            self.wf(),
        ensures
            r == self@.free_count(),
    {
        let mut n: usize = 0;
        let mut i: usize = 0;
        let ghost mut seen: MemoryState = MemoryState {
            start: self@.start,
            used: Seq::empty(),
            nodes: Seq::empty(),
        };
        proof {
            seen.lemma_free_count_zero();
        }
        while i < self.used.len()
            invariant
                i <= self.used@.len(),
                seen.start == self@.start,
                seen.used == self.used@.take(i as int),
                n == seen.free_count(),
                n <= i,
            decreases self.used@.len() - i,
        {
            let ghost next = MemoryState {
                start: seen.start,
                used: self.used@.take(i + 1),
                nodes: seen.nodes,
            };
            proof {
                seen.lemma_free_set_finite();
                next.lemma_free_set_finite();
                if self.used@[i as int] {
                    assert(next.free_set() =~= seen.free_set());
                } else {
                    assert(next.free_set() =~= seen.free_set().insert(i as int));
                }
            }
            if !self.used[i] {
                n += 1;
            }
            i += 1;
            proof {
                seen = next;
            }
        }
        proof {
            assert(self.used@.take(i as int) =~= self.used@);
            assert(seen.free_set() =~= self@.free_set());
        }
        n
    }

    /// Entry `idx` of the node in frame `ppn`.
    pub fn read(&self, ppn: PhysPageNum, idx: usize) -> (r: PageTableEntry)
        requires
            self.wf(),
            self@.holds(ppn),
            idx < 512,
        ensures
            r == self@.entry(ppn, idx as int),
    {
        proof {
            self.lemma_bounds();
        }
        let f: usize = (ppn.0 - self.start) as usize;
        self.words[f * 512 + idx]
    }

    /// Sets entry `idx` of the node in frame `ppn` to `e`.
    pub fn write(&mut self, ppn: PhysPageNum, idx: usize, e: PageTableEntry)
        requires
            old(self).wf(),
            old(self)@.holds(ppn),
            idx < 512,
        ensures
            final(self).wf(),
            final(self)@ == old(self)@.write(ppn, idx as int, e),
    {
        proof {
            self.lemma_bounds();
        }
        let f: usize = (ppn.0 - self.start) as usize;
        self.words.set(f * 512 + idx, e);
        proof {
            let want = old(self)@.write(ppn, idx as int, e);
            assert forall|i: int| 0 <= i < self@.nodes.len() implies self@.nodes[i]
                =~= want.nodes[i] by {}
            assert(self@.nodes =~= want.nodes);
        }
    }

    /// Hands out the free frame with the lowest page number, zeroed, or
    /// nothing where no frame is free.
    pub fn frame_alloc(&mut self) -> (r: Option<FrameTracker>)
        requires
            old(self).wf(),
        ensures
            final(self).wf(),
            r.is_some() <==> old(self)@.free_count() > 0,
            r.is_none() ==> final(self)@ == old(self)@,
            r.is_some() ==> old(self)@.lowest_free(r.unwrap().ppn),
            r.is_some() ==> r.unwrap().ppn == old(self)@.first_free(),
            r.is_some() ==> final(self)@ == old(self)@.hand_out(r.unwrap().ppn),
            r.is_some() ==> final(self)@.free_count() == old(self)@.free_count() - 1,
    {
        let mut i: usize = 0;
        while i < self.used.len() && self.used[i]
            invariant
                self == old(self),
                i <= self.used@.len(),
                forall|k: int| 0 <= k < i ==> #[trigger] self.used@[k],
            decreases self.used@.len() - i,
        {
            i += 1;
        }
        proof {
            self@.lemma_free_count_zero();
        }
        if i >= self.used.len() {
            return None;
        }
        let ppn = PhysPageNum(self.start + i as u64);
        proof {
            self.lemma_bounds();
            self@.lemma_first_free(ppn);
            self@.lemma_free_count_step(ppn);
        }
        self.used.set(i, true);
        let mut j: usize = 0;
        while j < NODE_ENTRIES
            invariant
                j <= 512,
                i < self.used@.len(),
                i < old(self).used@.len(),
                self.words@.len() == self.used@.len() * 512,
                self.words@.len() <= usize::MAX,
                self.start == old(self).start,
                self.used@ == old(self).used@.update(i as int, true),
                self.words@.len() == old(self).words@.len(),
                old(self).wf(),
                forall|k: int|
                    0 <= k < self.words@.len() && !(i * 512 <= k < i * 512 + j)
                        ==> self.words@[k] == old(self).words@[k],
                forall|k: int| i * 512 <= k < i * 512 + j ==> self.words@[k].bits == 0,
            decreases 512 - j,
        {
            self.words.set(i * 512 + j, PageTableEntry::empty());
            j += 1;
        }
        proof {
            let want = old(self)@.hand_out(ppn);
            assert forall|f: int| 0 <= f < self@.nodes.len() implies self@.nodes[f]
                =~= want.nodes[f] by {}
            assert(self@.nodes =~= want.nodes);
        }
        Some(FrameTracker { ppn })
    }

    /// Takes back a frame that was handed out. What the frame holds is left
    /// as it is.
    pub fn frame_dealloc(&mut self, frame: FrameTracker)
        requires
            old(self).wf(),
            old(self)@.allocated(frame.ppn),
        ensures
            final(self).wf(),
            final(self)@ == old(self)@.take_back(frame.ppn),
            final(self)@.free_count() == old(self)@.free_count() + 1,
    {
        proof {
            self@.lemma_free_count_step(frame.ppn);
        }
        proof {
            self.lemma_bounds();
        }
        let f: usize = (frame.ppn.0 - self.start) as usize;
        self.used.set(f, false);
        proof {
            assert(self@.nodes =~= old(self)@.nodes);
        }
    }
}

} // verus!
