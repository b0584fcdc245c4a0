//! The three-level page table of one address space.
//!
//! A table is a root node and the nodes below it, each a frame of 512
//! entries. A walk for a virtual page number takes the entry at its first
//! index in the root, follows it to a node of the second level, takes the
//! entry at its second index there, follows it to a node of the third level,
//! and ends at the entry at its third index: the leaf. Only the depth of the
//! walk tells a leaf from a pointer to the next node.
//!
//! `map` and `unmap` do not flush any translation cache. Who changes a table
//! flushes once, after the last change and before the address space is used
//! again.

use vstd::prelude::*;
use crate::address::{
    lemma_indexes_decide_key, lemma_indexes_reassemble, PhysPageNum, VirtPageNum, PPN_MASK,
};
use crate::entry::{lemma_entry_round_trip, lemma_valid_bit, PageTableEntry};
use crate::flags::PTEFlags;
use crate::memory::{FrameTracker, MemoryState, PhysMemory};

verus! {

/// Where a node of a table hangs: how deep it is, and which entry of which
/// owned node points to it.
pub struct Link {
    pub depth: int,
    pub parent: int,
    pub slot: int,
}

/// What a `PageTable` holds, as mathematics: the root, the page numbers of
/// the frames it owns in the order it got them, and for each of them its
/// place in the tree.
pub struct TableView {
    pub root: PhysPageNum,
    pub owned: Seq<PhysPageNum>,
    pub links: Seq<Link>,
}

/// The node that the walk for `vpn` from `root` reaches after `depth` steps,
/// if every entry on the way is valid and lies in memory.
pub open spec fn node_at(m: MemoryState, root: PhysPageNum, vpn: VirtPageNum, depth: nat) -> Option<
    PhysPageNum,
>
    decreases depth,
{
    if depth == 0 {
        Some(root)
    } else {
        match node_at(m, root, vpn, (depth - 1) as nat) {
            Some(p) => {
                let e = m.entry(p, vpn.index(depth - 1) as int);
                if m.holds(p) && e.valid() {
                    Some(e.page())
                } else {
                    None
                }
            },
            None => None,
        }
    }
}

/// The place of the leaf entry for `vpn`: the node of the third level and
/// the index in it. There is none where a node of the first two levels is
/// missing.
pub open spec fn leaf_slot(m: MemoryState, root: PhysPageNum, vpn: VirtPageNum) -> Option<
    (PhysPageNum, usize),
> {
    match node_at(m, root, vpn, 2) {
        Some(p) => if m.holds(p) {
            Some((p, vpn.index(2)))
        } else {
            None
        },
        None => None,
    }
}

/// The leaf entry for `vpn`, valid or not, or nothing where a node of the
/// first two levels is missing.
pub open spec fn walk(m: MemoryState, root: PhysPageNum, vpn: VirtPageNum) -> Option<
    PageTableEntry,
> {
    match leaf_slot(m, root, vpn) {
        Some((p, i)) => Some(m.entry(p, i as int)),
        None => None,
    }
}

/// The entry that `vpn` is mapped by: its leaf, where that is valid.
pub open spec fn mapping(m: MemoryState, root: PhysPageNum, vpn: VirtPageNum) -> Option<
    PageTableEntry,
> {
    match walk(m, root, vpn) {
        Some(e) => if e.valid() {
            Some(e)
        } else {
            None
        },
        None => None,
    }
}

/// How many nodes a walk for `vpn` lacks: two where the root entry is not
/// valid, one where only the entry of the second level is not, else none.
pub open spec fn nodes_missing(m: MemoryState, root: PhysPageNum, vpn: VirtPageNum) -> nat {
    if node_at(m, root, vpn, 1) is None {
        2
    } else if node_at(m, root, vpn, 2) is None {
        1
    } else {
        0
    }
}

impl TableView {
    /// Node `k` hangs where its link says: the entry at that slot of its
    /// parent is valid and holds the node's page number.
    pub open spec fn hangs(self, m: MemoryState, k: int) -> bool {
        let l = self.links[k];
        &&& 1 <= l.depth <= 2
        &&& 0 <= l.parent < self.owned.len()
        &&& self.links[l.parent].depth + 1 == l.depth
        &&& 0 <= l.slot < 512
        &&& m.entry(self.owned[l.parent], l.slot).valid()
        &&& m.entry(self.owned[l.parent], l.slot).page() == self.owned[k]
    }

    /// Some owned node hangs at slot `s` of node `j`.
    pub open spec fn has_child(self, j: int, s: int) -> bool {
        exists|k: int|
            1 <= k < self.owned.len() && (#[trigger] self.links[k]).parent == j
                && self.links[k].slot == s
    }

    /// The table is a tree in memory `m`: the first owned frame is the root;
    /// the owned frames are handed out and differ from each other; every
    /// other owned frame hangs at one entry of an owned node of the level
    /// above; and every valid entry of a node of the first two levels points
    /// to an owned frame that hangs there.
    pub open spec fn wf(self, m: MemoryState) -> bool {
        &&& m.inv()
        &&& self.owned.len() >= 1
        &&& self.links.len() == self.owned.len()
        &&& self.owned[0] == self.root
        &&& self.links[0].depth == 0
        &&& forall|k: int| 0 <= k < self.owned.len() ==> m.allocated(#[trigger] self.owned[k])
        &&& forall|k: int, l: int|
            0 <= k < l < self.owned.len() ==> self.owned[k] != self.owned[l]
        &&& forall|k: int| 1 <= k < self.owned.len() ==> #[trigger] self.hangs(m, k)
        &&& forall|j: int, s: int|
            0 <= j < self.owned.len() && 0 <= s < 512 && self.links[j].depth < 2 && (
            #[trigger] m.entry(self.owned[j], s)).valid() ==> self.has_child(j, s)
    }

    /// The view of a table with the root `root` that owns no frame.
    pub open spec fn unowned(root: PhysPageNum) -> TableView {
        TableView { root, owned: Seq::empty(), links: Seq::empty() }
    }

    /// Whether the table owns the frame `p`.
    pub open spec fn owns(self, p: PhysPageNum) -> bool {
        self.owned.contains(p)
    }

    /// In a tree, the node that a walk reaches is owned, lies as deep as the
    /// walk went, and hangs at the slot that the walk took from the node it
    /// reached before. The result is its position among the owned frames.
    pub proof fn lemma_node_index(self, m: MemoryState, vpn: VirtPageNum, d: nat) -> (k: int)
        requires
            self.wf(m),
            d <= 2,
            node_at(m, self.root, vpn, d) is Some,
        ensures
            0 <= k < self.owned.len(),
            self.owned[k] == node_at(m, self.root, vpn, d).unwrap(),
            self.links[k].depth == d,
            m.holds(self.owned[k]),
            d >= 1 ==> k >= 1 && self.links[k].slot == vpn.index(d - 1) && node_at(
                m,
                self.root,
                vpn,
                (d - 1) as nat,
            ) == Some(self.owned[self.links[k].parent]),
        decreases d,
    {
        if d == 0 {
            assert(m.allocated(self.owned[0]));
            0
        } else {
            let j = self.lemma_node_index(m, vpn, (d - 1) as nat);
            let s = vpn.index(d - 1) as int;
            lemma_indexes_reassemble(vpn);
            assert(m.entry(self.owned[j], s).valid());
            assert(self.has_child(j, s));
            let k = choose|k: int|
                1 <= k < self.owned.len() && (#[trigger] self.links[k]).parent == j
                    && self.links[k].slot == s;
            assert(self.hangs(m, k));
            assert(m.allocated(self.owned[k]));
            k
        }
    }

    /// In a tree, two walks that reach the same node took the same slots.
    pub proof fn lemma_same_node_same_path(
        self,
        m: MemoryState,
        v: VirtPageNum,
        w: VirtPageNum,
        d: nat,
    )
        requires
            self.wf(m),
            d <= 2,
            node_at(m, self.root, v, d) is Some,
            node_at(m, self.root, v, d) == node_at(m, self.root, w, d),
        ensures
            forall|j: int| 0 <= j < d ==> v.index(j) == w.index(j),
        decreases d,
    {
        if d > 0 {
            let kv = self.lemma_node_index(m, v, d);
            let kw = self.lemma_node_index(m, w, d);
            assert(kv == kw);
            self.lemma_same_node_same_path(m, v, w, (d - 1) as nat);
        }
    }

    /// In a tree, two virtual page numbers share their leaf entry only where
    /// their low 27 bits agree.
    pub proof fn lemma_leaf_slots_differ(self, m: MemoryState, v: VirtPageNum, w: VirtPageNum)
        requires
            self.wf(m),
            leaf_slot(m, self.root, v) is Some,
            leaf_slot(m, self.root, v) == leaf_slot(m, self.root, w),
        ensures
            v.key() == w.key(),
    {
        self.lemma_same_node_same_path(m, v, w, 2);
        lemma_indexes_decide_key(v, w);
    }

    /// The nodes of the first two levels hold the same in `m2` as in `m`,
    /// and both memories span the same frames.
    pub open spec fn same_upper(self, m: MemoryState, m2: MemoryState) -> bool {
        &&& m2.start == m.start
        &&& m2.used.len() == m.used.len()
        &&& forall|k: int, s: int|
            0 <= k < self.owned.len() && self.links[k].depth < 2 && 0 <= s < 512
                ==> #[trigger] m2.entry(self.owned[k], s) == m.entry(self.owned[k], s)
    }

    /// A walk reaches the same nodes in two memories that agree on the nodes
    /// of the first two levels.
    pub proof fn lemma_nodes_stable(
        self,
        m: MemoryState,
        m2: MemoryState,
        vpn: VirtPageNum,
        d: nat,
    )
        requires
            self.wf(m),
            self.same_upper(m, m2),
            d <= 2,
        ensures
            node_at(m2, self.root, vpn, d) == node_at(m, self.root, vpn, d),
        decreases d,
    {
        if d > 0 {
            self.lemma_nodes_stable(m, m2, vpn, (d - 1) as nat);
            if node_at(m, self.root, vpn, (d - 1) as nat) is Some {
                let k = self.lemma_node_index(m, vpn, (d - 1) as nat);
                lemma_indexes_reassemble(vpn);
                let s = vpn.index(d - 1) as int;
                assert(m2.entry(self.owned[k], s) == m.entry(self.owned[k], s));
            }
        }
    }

    /// Setting an entry of a node of the third level keeps the tree.
    pub proof fn lemma_write_leaf_wf(self, m: MemoryState, k: int, i: int, e: PageTableEntry)
        requires
            self.wf(m),
            0 <= k < self.owned.len(),
            self.links[k].depth == 2,
            0 <= i < 512,
        ensures
            self.wf(m.write(self.owned[k], i, e)),
            self.same_upper(m, m.write(self.owned[k], i, e)),
    {
        let p = self.owned[k];
        let m2 = m.write(p, i, e);
        assert(m.allocated(p));
        m.lemma_write(p, i, e);
        assert forall|j: int, s: int|
            0 <= j < self.owned.len() && self.links[j].depth < 2 && 0 <= s < 512
            implies #[trigger] m2.entry(
            self.owned[j],
            s,
        ) == m.entry(self.owned[j], s) by {
            assert(m.allocated(self.owned[j]));
            assert(j != k);
            assert(self.owned[j] != p);
        }
        assert forall|j: int| 0 <= j < self.owned.len() implies m2.allocated(
            #[trigger] self.owned[j],
        ) by {
            assert(m.allocated(self.owned[j]));
        }
        assert forall|j: int| 1 <= j < self.owned.len() implies #[trigger] self.hangs(m2, j) by {
            assert(self.hangs(m, j));
            let l = self.links[j];
            assert(m2.entry(self.owned[l.parent], l.slot) == m.entry(self.owned[l.parent], l.slot));
        }
        assert forall|j: int, s: int|
            0 <= j < self.owned.len() && 0 <= s < 512 && self.links[j].depth < 2 && (
            #[trigger] m2.entry(self.owned[j], s)).valid() implies self.has_child(j, s) by {
            assert(m2.entry(self.owned[j], s) == m.entry(self.owned[j], s));
        }
    }

    /// After an entry of a node of the third level has been set, a walk that
    /// ends at that entry finds the new entry, and every other walk finds
    /// what it found before.
    pub proof fn lemma_write_leaf_walk(
        self,
        m: MemoryState,
        k: int,
        i: int,
        e: PageTableEntry,
        vpn: VirtPageNum,
    )
        requires
            self.wf(m),
            0 <= k < self.owned.len(),
            self.links[k].depth == 2,
            0 <= i < 512,
        ensures
            leaf_slot(m.write(self.owned[k], i, e), self.root, vpn) == leaf_slot(m, self.root, vpn),
            walk(m.write(self.owned[k], i, e), self.root, vpn) == if leaf_slot(m, self.root, vpn)
                == Some((self.owned[k], i as usize)) {
                Some(e)
            } else {
                walk(m, self.root, vpn)
            },
    {
        let p = self.owned[k];
        let m2 = m.write(p, i, e);
        self.lemma_write_leaf_wf(m, k, i, e);
        self.lemma_nodes_stable(m, m2, vpn, 2);
        assert(m.allocated(p));
        m.lemma_write(p, i, e);
        lemma_indexes_reassemble(vpn);
        if leaf_slot(m, self.root, vpn) is Some {
            let q = node_at(m, self.root, vpn, 2).unwrap();
            let x = vpn.index(2) as int;
            if !(q == p && x == i) {
                assert(m2.entry(q, x) == m.entry(q, x));
            }
        }
    }

    /// The table after a fresh frame `f` has been hung at slot `s` of the
    /// owned node `j`.
    pub open spec fn grow(self, j: int, s: int, f: PhysPageNum) -> TableView {
        TableView {
            root: self.root,
            owned: self.owned.push(f),
            links: self.links.push(Link { depth: self.links[j].depth + 1, parent: j, slot: s }),
        }
    }

    /// The memory after the frame `f` has been handed out and slot `s` of
    /// node `j` has been pointed to it.
    pub open spec fn grow_memory(
        self,
        m: MemoryState,
        j: int,
        s: int,
        f: PhysPageNum,
    ) -> MemoryState {
        m.hand_out(f).write(self.owned[j], s, PageTableEntry::pack(f, PTEFlags { bits: 1 }))
    }

    /// The table and the memory after the free frame with the lowest page
    /// number has been hung at slot `s` of the owned node `j`.
    pub open spec fn hang_fresh(self, m: MemoryState, j: int, s: int) -> (TableView, MemoryState) {
        (self.grow(j, s, m.first_free()), self.grow_memory(m, j, s, m.first_free()))
    }

    /// The table and the memory after the node of the second level for `vpn`
    /// has been made, where the walk lacked it.
    pub open spec fn with_top(self, m: MemoryState, vpn: VirtPageNum) -> (TableView, MemoryState) {
        if node_at(m, self.root, vpn, 1) is None {
            self.hang_fresh(m, 0, vpn.index(0) as int)
        } else {
            (self, m)
        }
    }

    /// The table and the memory after the nodes of the second and third
    /// level for `vpn` have been made, where the walk lacked them: first the
    /// one of the second level, then the one of the third.
    pub open spec fn with_path(self, m: MemoryState, vpn: VirtPageNum) -> (TableView, MemoryState) {
        let (t1, m1) = self.with_top(m, vpn);
        if node_at(m1, self.root, vpn, 2) is None {
            t1.hang_fresh(
                m1,
                t1.owned.index_of(node_at(m1, self.root, vpn, 1).unwrap()),
                vpn.index(1) as int,
            )
        } else {
            (t1, m1)
        }
    }

    /// What hanging a fresh node asks for: a node of the first two levels
    /// with an entry that is not valid, and a free frame.
    pub open spec fn can_grow(self, m: MemoryState, j: int, s: int, f: PhysPageNum) -> bool {
        &&& self.wf(m)
        &&& 0 <= j < self.owned.len()
        &&& self.links[j].depth < 2
        &&& 0 <= s < 512
        &&& !m.entry(self.owned[j], s).valid()
        &&& m.holds(f)
        &&& !m.allocated(f)
    }

    /// What hanging a fresh node does to the entries in memory: the slot
    /// points to the new frame, the new frame is empty, and every other
    /// entry of every other frame of the memory is as before.
    pub proof fn lemma_grow_entries(self, m: MemoryState, j: int, s: int, f: PhysPageNum)
        requires
            self.can_grow(m, j, s, f),
        ensures
            self.grow_memory(m, j, s, f).inv(),
            self.grow_memory(m, j, s, f).start == m.start,
            self.grow_memory(m, j, s, f).used.len() == m.used.len(),
            self.owned[j] != f,
            self.grow_memory(m, j, s, f).entry(self.owned[j], s).valid(),
            self.grow_memory(m, j, s, f).entry(self.owned[j], s).page() == f,
            forall|q: PhysPageNum|
                self.grow_memory(m, j, s, f).allocated(q) == (m.allocated(q) || q == f),
            forall|x: int|
                0 <= x < 512 ==> (#[trigger] self.grow_memory(m, j, s, f).entry(f, x)).bits == 0,
            forall|q: PhysPageNum, x: int|
                m.holds(q) && 0 <= x < 512 && q != f && !(q == self.owned[j] && x == s)
                    ==> #[trigger] self.grow_memory(m, j, s, f).entry(q, x) == m.entry(q, x),
    {
        let p = self.owned[j];
        let e = PageTableEntry::pack(f, PTEFlags { bits: 1 });
        let m1 = m.hand_out(f);
        let m2 = m1.write(p, s, e);
        assert(m.allocated(p));
        m.lemma_hand_out(f);
        m1.lemma_write(p, s, e);
        lemma_entry_round_trip(f, PTEFlags { bits: 1 });
        assert(1u8 & 1u8 == 1u8) by (bit_vector);
        assert forall|x: int| 0 <= x < 512 implies (#[trigger] m2.entry(f, x)).bits == 0 by {
            assert(m2.entry(f, x) == m1.entry(f, x));
        }
        assert forall|q: PhysPageNum, x: int|
            m.holds(q) && 0 <= x < 512 && q != f && !(q == p && x == s) implies #[trigger] m2.entry(
            q,
            x,
        ) == m.entry(q, x) by {
            assert(m2.entry(q, x) == m1.entry(q, x));
            assert(m1.entry(q, x) == m.entry(q, x));
        }
    }

    /// Hanging a fresh node keeps the tree.
    pub proof fn lemma_grow_wf(self, m: MemoryState, j: int, s: int, f: PhysPageNum)
        requires
            self.can_grow(m, j, s, f),
        ensures
            self.grow(j, s, f).wf(self.grow_memory(m, j, s, f)),
    {
        let t2 = self.grow(j, s, f);
        let m2 = self.grow_memory(m, j, s, f);
        let n = self.owned.len() as int;
        self.lemma_grow_entries(m, j, s, f);
        lemma_valid_bit(f, PTEFlags { bits: 0 });
        assert forall|k: int| 0 <= k < t2.owned.len() implies m2.allocated(
            #[trigger] t2.owned[k],
        ) by {
            if k < n {
                assert(m.allocated(self.owned[k]));
            }
        }
        assert forall|k: int, l: int| 0 <= k < l < t2.owned.len() implies t2.owned[k]
            != t2.owned[l] by {
            assert(m.allocated(self.owned[k]));
        }
        assert forall|k: int| 1 <= k < t2.owned.len() implies #[trigger] t2.hangs(m2, k) by {
            if k < n {
                assert(self.hangs(m, k));
                let l = self.links[k];
                assert(t2.links[k] == l);
                assert(t2.owned[k] == self.owned[k]);
                assert(t2.owned[l.parent] == self.owned[l.parent]);
                assert(t2.links[l.parent] == self.links[l.parent]);
                assert(m.allocated(self.owned[l.parent]));
                assert(m2.entry(self.owned[l.parent], l.slot) == m.entry(
                    self.owned[l.parent],
                    l.slot,
                ));
            } else {
                if j >= 1 {
                    assert(self.hangs(m, j));
                }
                assert(t2.links[k] == Link { depth: self.links[j].depth + 1, parent: j, slot: s });
                assert(t2.owned[k] == f);
                assert(t2.owned[j] == self.owned[j]);
                assert(t2.links[j] == self.links[j]);
            }
        }
        assert forall|a: int, x: int|
            0 <= a < t2.owned.len() && 0 <= x < 512 && t2.links[a].depth < 2 && (
            #[trigger] m2.entry(t2.owned[a], x)).valid() implies t2.has_child(a, x) by {
            if a == n {
                assert(m2.entry(f, x).bits == 0);
            } else if a == j && x == s {
                assert(t2.links[n].parent == j && t2.links[n].slot == s);
            } else {
                assert(m.allocated(self.owned[a]));
                assert(m2.entry(self.owned[a], x) == m.entry(self.owned[a], x));
                assert(self.has_child(a, x));
                let k = choose|k: int|
                    1 <= k < self.owned.len() && (#[trigger] self.links[k]).parent == a
                        && self.links[k].slot == x;
                assert(t2.links[k].parent == a && t2.links[k].slot == x);
            }
        }
    }

    /// Whether the walk for `vpn` passes through slot `s` of the owned node
    /// `j`.
    pub open spec fn passes(self, m: MemoryState, j: int, s: int, vpn: VirtPageNum) -> bool {
        node_at(m, self.root, vpn, self.links[j].depth as nat) == Some(self.owned[j]) && vpn.index(
            self.links[j].depth,
        ) == s
    }

    /// After a fresh node has been hung, a walk reaches every node it
    /// reached before, and the new node where it passes through the slot
    /// that now points to it.
    pub proof fn lemma_grow_nodes(
        self,
        m: MemoryState,
        j: int,
        s: int,
        f: PhysPageNum,
        vpn: VirtPageNum,
        d: nat,
    )
        requires
            self.can_grow(m, j, s, f),
            d <= 2,
        ensures
            node_at(self.grow_memory(m, j, s, f), self.root, vpn, d) == (match node_at(
                m,
                self.root,
                vpn,
                d,
            ) {
                Some(p) => Some(p),
                None => if d == self.links[j].depth + 1 && self.passes(m, j, s, vpn) {
                    Some(f)
                } else {
                    None
                },
            }),
        decreases d,
    {
        let m2 = self.grow_memory(m, j, s, f);
        self.lemma_grow_entries(m, j, s, f);
        lemma_indexes_reassemble(vpn);
        lemma_valid_bit(f, PTEFlags { bits: 0 });
        if d > 0 {
            let c = (d - 1) as nat;
            self.lemma_grow_nodes(m, j, s, f, vpn, c);
            let x = vpn.index(d - 1) as int;
            match node_at(m, self.root, vpn, c) {
                Some(p) => {
                    let k = self.lemma_node_index(m, vpn, c);
                    assert(m.allocated(p));
                    if !(k == j && x == s) {
                        assert(!(p == self.owned[j] && x == s));
                        assert(m2.entry(p, x) == m.entry(p, x));
                    }
                },
                None => {
                    if node_at(m2, self.root, vpn, c) is Some {
                        assert(m2.entry(f, x).bits == 0);
                    }
                },
            }
        }
    }

    /// After a fresh node has been hung, every leaf that a walk found is
    /// found as before; a walk that found none finds an empty leaf where the
    /// new node is of the third level and the walk passes through the slot
    /// that points to it, and none otherwise. So no mapping changes.
    pub proof fn lemma_grow_walk(
        self,
        m: MemoryState,
        j: int,
        s: int,
        f: PhysPageNum,
        vpn: VirtPageNum,
    )
        requires
            self.can_grow(m, j, s, f),
        ensures
            walk(self.grow_memory(m, j, s, f), self.root, vpn) == (match walk(m, self.root, vpn) {
                Some(e) => Some(e),
                None => if self.links[j].depth == 1 && self.passes(m, j, s, vpn) {
                    Some(PageTableEntry { bits: 0 })
                } else {
                    None
                },
            }),
            mapping(self.grow_memory(m, j, s, f), self.root, vpn) == mapping(m, self.root, vpn),
    {
        let m2 = self.grow_memory(m, j, s, f);
        self.lemma_grow_entries(m, j, s, f);
        self.lemma_grow_nodes(m, j, s, f, vpn, 2);
        lemma_indexes_reassemble(vpn);
        lemma_valid_bit(f, PTEFlags { bits: 0 });
        let x = vpn.index(2) as int;
        match node_at(m, self.root, vpn, 2) {
            Some(p) => {
                let k = self.lemma_node_index(m, vpn, 2);
                assert(m.allocated(p));
                assert(m2.entry(p, x) == m.entry(p, x));
            },
            None => {
                if node_at(m2, self.root, vpn, 2) is Some {
                    assert(m2.entry(f, x).bits == 0);
                    assert(m2.entry(f, x) == PageTableEntry { bits: 0 });
                }
            },
        }
    }

    /// How this table in memory `m2` came from the table `t` in memory `m` by
    /// taking fresh frames: the frames owned before are the first it owns
    /// now, each further one was free in `m`, the frames handed out are
    /// those that were together with those that the table owns, and every
    /// frame that the table does not own holds what it held.
    pub open spec fn grown_from(self, m2: MemoryState, t: TableView, m: MemoryState) -> bool {
        &&& self.root == t.root
        &&& t.owned.len() <= self.owned.len()
        &&& forall|k: int| 0 <= k < t.owned.len() ==> self.owned[k] == t.owned[k]
        &&& forall|k: int|
            t.owned.len() <= k < self.owned.len() ==> m.holds(#[trigger] self.owned[k])
                && !m.allocated(self.owned[k])
        &&& m2.start == m.start
        &&& m2.used.len() == m.used.len()
        &&& forall|q: PhysPageNum| #[trigger] m2.allocated(q) == (m.allocated(q) || self.owns(q))
        &&& forall|q: PhysPageNum, x: int|
            m.holds(q) && 0 <= x < 512 && !self.owns(q) ==> #[trigger] m2.entry(q, x) == m.entry(
                q,
                x,
            )
    }

    /// A table has grown from itself.
    pub proof fn lemma_grown_from_self(self, m: MemoryState)
        requires
            self.wf(m),
        ensures
            self.grown_from(m, self, m),
    {
        assert forall|q: PhysPageNum| #[trigger] m.allocated(q) == (m.allocated(q) || self.owns(
            q,
        )) by {
            if self.owns(q) {
                let k = choose|k: int| 0 <= k < self.owned.len() && self.owned[k] == q;
                assert(m.allocated(self.owned[k]));
            }
        }
    }

    /// Hanging one more fresh node on a table that has grown from `t` gives a
    /// table that has grown from `t`.
    pub proof fn lemma_grown_from_step(
        self,
        m: MemoryState,
        j: int,
        s: int,
        f: PhysPageNum,
        t: TableView,
        m0: MemoryState,
    )
        requires
            self.can_grow(m, j, s, f),
            self.grown_from(m, t, m0),
        ensures
            self.grow(j, s, f).grown_from(self.grow_memory(m, j, s, f), t, m0),
    {
        let t2 = self.grow(j, s, f);
        let m2 = self.grow_memory(m, j, s, f);
        let n = self.owned.len() as int;
        self.lemma_grow_entries(m, j, s, f);
        assert(t2.owned[n] == f);
        assert forall|q: PhysPageNum| t2.owns(q) == (self.owns(q) || q == f) by {
            if self.owns(q) {
                let k = choose|k: int| 0 <= k < self.owned.len() && self.owned[k] == q;
                assert(t2.owned[k] == q);
            }
            if t2.owns(q) && q != f {
                let k = choose|k: int| 0 <= k < t2.owned.len() && t2.owned[k] == q;
                assert(self.owned[k] == q);
            }
        }
        assert(self.owns(self.owned[j]));
        assert(m.allocated(f) == (m0.allocated(f) || self.owns(f)));
        assert forall|k: int| t.owned.len() <= k < t2.owned.len() implies m0.holds(
            #[trigger] t2.owned[k],
        ) && !m0.allocated(t2.owned[k]) by {
            if k < n {
                assert(t2.owned[k] == self.owned[k]);
            }
        }
        assert forall|q: PhysPageNum| #[trigger] m2.allocated(q) == (m0.allocated(q) || t2.owns(
            q,
        )) by {
            assert(m.allocated(q) == (m0.allocated(q) || self.owns(q)));
        }
        assert forall|q: PhysPageNum, x: int|
            m0.holds(q) && 0 <= x < 512 && !t2.owns(q) implies #[trigger] m2.entry(q, x)
            == m0.entry(q, x) by {
            assert(m2.entry(q, x) == m.entry(q, x));
            assert(m.entry(q, x) == m0.entry(q, x));
        }
    }

    /// In a tree, every valid entry of a node of the first two levels points
    /// to a frame that the table owns.
    pub proof fn lemma_children_owned(self, m: MemoryState, j: int, s: int)
        requires
            self.wf(m),
            0 <= j < self.owned.len(),
            self.links[j].depth < 2,
            0 <= s < 512,
            m.entry(self.owned[j], s).valid(),
        ensures
            self.owns(m.entry(self.owned[j], s).page()),
    {
        assert(self.has_child(j, s));
        let k = choose|k: int|
            1 <= k < self.owned.len() && (#[trigger] self.links[k]).parent == j
                && self.links[k].slot == s;
        assert(self.hangs(m, k));
        assert(self.owned[k] == m.entry(self.owned[j], s).page());
    }

    /// A table rests on its own frames alone: in a memory of the same span
    /// in which the frames it owns are handed out and hold what they hold
    /// in `m`, it is the same tree and every walk ends as in `m`.
    pub proof fn lemma_table_kept(self, m: MemoryState, m2: MemoryState)
        requires
            self.wf(m),
            m2.inv(),
            m2.start == m.start,
            m2.used.len() == m.used.len(),
            forall|q: PhysPageNum| self.owns(q) ==> #[trigger] m2.allocated(q),
            forall|q: PhysPageNum, x: int|
                self.owns(q) && 0 <= x < 512 ==> #[trigger] m2.entry(q, x) == m.entry(q, x),
        ensures
            self.wf(m2),
            forall|v: VirtPageNum| #[trigger] walk(m2, self.root, v) == walk(m, self.root, v),
            forall|v: VirtPageNum| #[trigger]
                nodes_missing(m2, self.root, v) == nodes_missing(m, self.root, v),
    {
        assert forall|k: int| 0 <= k < self.owned.len() implies self.owns(
            #[trigger] self.owned[k],
        ) by {}
        assert forall|k: int| 0 <= k < self.owned.len() implies m2.allocated(
            #[trigger] self.owned[k],
        ) by {
            assert(self.owns(self.owned[k]));
        }
        assert forall|k: int| 1 <= k < self.owned.len() implies #[trigger] self.hangs(m2, k) by {
            assert(self.hangs(m, k));
            let l = self.links[k];
            assert(self.owns(self.owned[l.parent]));
            assert(m2.entry(self.owned[l.parent], l.slot) == m.entry(self.owned[l.parent], l.slot));
        }
        assert forall|j: int, s: int|
            0 <= j < self.owned.len() && 0 <= s < 512 && self.links[j].depth < 2 && (
            #[trigger] m2.entry(self.owned[j], s)).valid() implies self.has_child(j, s) by {
            assert(self.owns(self.owned[j]));
            assert(m2.entry(self.owned[j], s) == m.entry(self.owned[j], s));
        }
        assert(self.same_upper(m, m2)) by {
            assert forall|k: int, s: int|
                0 <= k < self.owned.len() && self.links[k].depth < 2 && 0 <= s < 512
                implies #[trigger] m2.entry(
                self.owned[k],
                s,
            ) == m.entry(self.owned[k], s) by {
                assert(self.owns(self.owned[k]));
            }
        }
        assert forall|v: VirtPageNum| #[trigger]
            walk(m2, self.root, v) == walk(m, self.root, v) by {
            self.lemma_nodes_stable(m, m2, v, 2);
            lemma_indexes_reassemble(v);
            if node_at(m, self.root, v, 2) is Some {
                let k = self.lemma_node_index(m, v, 2);
                assert(self.owns(self.owned[k]));
                assert(m2.allocated(self.owned[k]));
            }
        }
        assert forall|v: VirtPageNum| #[trigger]
            nodes_missing(m2, self.root, v) == nodes_missing(m, self.root, v) by {
            self.lemma_nodes_stable(m, m2, v, 1);
            self.lemma_nodes_stable(m, m2, v, 2);
        }
    }

    /// Two tables share no frame.
    pub open spec fn apart(self, other: TableView) -> bool {
        forall|q: PhysPageNum| !(self.owns(q) && other.owns(q))
    }

    /// A table is not touched by what another table beside it does: where
    /// the other table `a` has grown into `a2`, taking memory from `m` to
    /// `m2`, and shared no frame with this table, this table is the same
    /// tree in `m2`, every walk in it ends as in `m`, and the two still
    /// share no frame.
    pub proof fn lemma_kept_beside(
        self,
        m: MemoryState,
        m2: MemoryState,
        a: TableView,
        a2: TableView,
    )
        requires
            self.wf(m),
            m2.inv(),
            a2.grown_from(m2, a, m),
            self.apart(a),
        ensures
            self.wf(m2),
            self.apart(a2),
            forall|v: VirtPageNum| #[trigger] walk(m2, self.root, v) == walk(m, self.root, v),
            forall|v: VirtPageNum| #[trigger]
                nodes_missing(m2, self.root, v) == nodes_missing(m, self.root, v),
    {
        assert forall|q: PhysPageNum| self.owns(q) implies m.allocated(q) && !a2.owns(q) by {
            let k = choose|k: int| 0 <= k < self.owned.len() && self.owned[k] == q;
            assert(m.allocated(self.owned[k]));
            if a2.owns(q) {
                let l = choose|l: int| 0 <= l < a2.owned.len() && a2.owned[l] == q;
                if l < a.owned.len() {
                    assert(a.owned[l] == q);
                    assert(a.owns(q));
                } else {
                    assert(!m.allocated(a2.owned[l]));
                }
            }
        }
        assert forall|q: PhysPageNum| self.owns(q) implies #[trigger] m2.allocated(q) by {
            assert(m2.allocated(q) == (m.allocated(q) || a2.owns(q)));
        }
        assert forall|q: PhysPageNum, x: int|
            self.owns(q) && 0 <= x < 512 implies #[trigger] m2.entry(
            q,
            x,
        ) == m.entry(q, x) by {
            assert(m.allocated(q));
        }
        self.lemma_table_kept(m, m2);
    }

    /// A tree has one frame for each node and no more: each owned frame but
    /// the root hangs at a valid entry of a node of the first two levels, no
    /// two hang at the same entry, and every such valid entry has its frame.
    pub proof fn lemma_one_frame_per_node(self, m: MemoryState)
        requires
            self.wf(m),
        ensures
            forall|k: int| 1 <= k < self.owned.len() ==> #[trigger] self.hangs(m, k),
            forall|k: int, l: int|
                1 <= k < l < self.owned.len() ==> !((#[trigger] self.links[k]).parent == (
                #[trigger] self.links[l]).parent && self.links[k].slot == self.links[l].slot),
            forall|j: int, s: int|
                0 <= j < self.owned.len() && 0 <= s < 512 && self.links[j].depth < 2 && (
                #[trigger] m.entry(self.owned[j], s)).valid() ==> self.has_child(j, s),
    {
        assert forall|k: int, l: int| 1 <= k < l < self.owned.len() implies !((
        #[trigger] self.links[k]).parent == (#[trigger] self.links[l]).parent && self.links[k].slot
            == self.links[l].slot) by {
            assert(self.hangs(m, k));
            assert(self.hangs(m, l));
        }
    }
}

/// The page table of one address space: the page number of its root node and
/// the frames that hold its nodes, the root's first. The frames are the
/// table's own from the moment it takes them until `release` hands them
/// back. A table made by `from_token` owns none.
pub struct PageTable {
    root_ppn: PhysPageNum,
    frames: Vec<FrameTracker>,
    links: Ghost<Seq<Link>>,
}

impl View for PageTable {
    type V = TableView;

    closed spec fn view(&self) -> TableView {
        TableView {
            root: self.root_ppn,
            owned: Seq::new(self.frames@.len(), |k: int| self.frames@[k].ppn),
            links: self.links@,
        }
    }
}

impl PageTable {
    /// The page number of the root node.
    pub fn root_ppn(&self) -> (r: PhysPageNum)
        ensures
            r == self@.root,
    {
        self.root_ppn
    }

    /// How many frames the table owns.
    pub fn frame_count(&self) -> (r: usize)
        ensures
            r == self@.owned.len(),
    {
        self.frames.len()
    }

    /// A view of the table whose root the low 44 bits of `satp` name. It owns
    /// no frame and serves to look up what another table maps.
    pub fn from_token(satp: u64) -> (r: Self)
        ensures
            r@ == TableView::unowned(PhysPageNum(satp & PPN_MASK)),
    {
        assert((satp & 0x0000_0fff_ffff_ffff) & 0x0000_0fff_ffff_ffff == satp
            & 0x0000_0fff_ffff_ffff) by (bit_vector);
        let table = PageTable {
            root_ppn: PhysPageNum::from(satp & PPN_MASK),
            frames: Vec::new(),
            links: Ghost(Seq::empty()),
        };
        assert(table@.owned =~= Seq::empty());
        table
    }

    /// The place of the leaf entry for `vpn`, or nothing where a node of the
    /// first two levels is missing. Creates nothing.
    pub fn find_pte(&self, mem: &PhysMemory, vpn: VirtPageNum) -> (r: Option<(PhysPageNum, usize)>)
        requires
            mem.wf(),
        ensures
            r == leaf_slot(mem@, self@.root, vpn),
    {
        let idxs = vpn.indexes();
        let mut ppn = self.root_ppn;
        let mut i: usize = 0;
        proof {
            reveal_with_fuel(node_at, 3);
        }
        while i < 3
            invariant
                i <= 2,
                mem.wf(),
                node_at(mem@, self@.root, vpn, i as nat) == Some(ppn),
                idxs[0] == vpn.index(0),
                idxs[1] == vpn.index(1),
                idxs[2] == vpn.index(2),
                idxs[0] < 512 && idxs[1] < 512 && idxs[2] < 512,
            decreases 3 - i,
        {
            proof {
                reveal_with_fuel(node_at, 3);
            }
            if !mem.contains(ppn) {
                return None;
            }
            if i == 2 {
                return Some((ppn, idxs[2]));
            }
            let pte = mem.read(ppn, idxs[i]);
            if !pte.is_valid() {
                return None;
            }
            ppn = pte.ppn();
            i += 1;
        }
        None
    }

    /// A copy of the leaf entry for `vpn`, valid or not, or nothing where a
    /// node of the first two levels is missing.
    pub fn translate(&self, mem: &PhysMemory, vpn: VirtPageNum) -> (r: Option<PageTableEntry>)
        requires
            mem.wf(),
        ensures
            r == walk(mem@, self@.root, vpn),
    {
        match self.find_pte(mem, vpn) {
            Some((ppn, idx)) => {
                proof {
                    lemma_indexes_reassemble(vpn);
                }
                Some(mem.read(ppn, idx))
            },
            None => None,
        }
    }

    /// How many frames `map` would take for `vpn`: one for each node of the
    /// second and third level that the walk lacks.
    pub fn frames_needed(&self, mem: &PhysMemory, vpn: VirtPageNum) -> (r: usize)
        requires
            mem.wf(),
        ensures
            r == nodes_missing(mem@, self@.root, vpn),
    {
        let idxs = vpn.indexes();
        proof {
            reveal_with_fuel(node_at, 3);
        }
        if !mem.contains(self.root_ppn) {
            return 2;
        }
        let top = mem.read(self.root_ppn, idxs[0]);
        if !top.is_valid() {
            return 2;
        }
        let ppn = top.ppn();
        if !mem.contains(ppn) {
            return 1;
        }
        let mid = mem.read(ppn, idxs[1]);
        if !mid.is_valid() {
            1
        } else {
            0
        }
    }

    /// A table that maps nothing. Its root is the free frame with the lowest
    /// page number, which the table takes and owns. Memory must have a free
    /// frame.
    pub fn new(mem: &mut PhysMemory) -> (r: Self)
        requires
            old(mem).wf(),
            old(mem)@.free_count() > 0,
        ensures
            final(mem).wf(),
            r@.wf(final(mem)@),
            r@.owned =~= seq![r@.root],
            r@.links =~= seq![Link { depth: 0, parent: 0, slot: 0 }],
            old(mem)@.lowest_free(r@.root),
            final(mem)@ == old(mem)@.hand_out(r@.root),
            final(mem)@.free_count() == old(mem)@.free_count() - 1,
            r@.grown_from(final(mem)@, TableView::unowned(r@.root), old(mem)@),
            forall|v: VirtPageNum| walk(final(mem)@, r@.root, v) is None,
            forall|v: VirtPageNum| #[trigger] nodes_missing(final(mem)@, r@.root, v) == 2,
    {
        let frame = mem.frame_alloc().unwrap();
        let root = frame.ppn;
        let mut frames: Vec<FrameTracker> = Vec::new();
        frames.push(frame);
        let ghost top = Seq::<Link>::empty().push(Link { depth: 0, parent: 0, slot: 0 });
        let table = PageTable { root_ppn: root, frames, links: Ghost(top) };
        proof {
            let m = mem@;
            old(mem)@.lemma_hand_out(root);
            lemma_valid_bit(root, PTEFlags { bits: 0 });
            assert(table@.owned =~= seq![root]);
            assert forall|j: int, x: int|
                0 <= j < table@.owned.len() && 0 <= x < 512 && table@.links[j].depth < 2 && (
                #[trigger] m.entry(table@.owned[j], x)).valid() implies table@.has_child(j, x) by {
                assert(m.entry(root, x).bits == 0);
            }
            assert forall|q: PhysPageNum| #[trigger]
                m.allocated(q) == (old(mem)@.allocated(q) || table@.owns(q)) by {
                if table@.owns(q) {
                    let k = choose|k: int| 0 <= k < table@.owned.len() && table@.owned[k] == q;
                    assert(q == root);
                }
                if q == root {
                    assert(table@.owned[0] == q);
                }
            }
            assert forall|q: PhysPageNum, x: int|
                old(mem)@.holds(q) && 0 <= x < 512 && !table@.owns(q) implies #[trigger] m.entry(
                q,
                x,
            ) == old(mem)@.entry(q, x) by {
                assert(table@.owned[0] == root);
            }
            assert forall|v: VirtPageNum| node_at(m, root, v, 1) is None by {
                reveal_with_fuel(node_at, 3);
                lemma_indexes_reassemble(v);
                assert(m.entry(root, v.index(0) as int).bits == 0);
            }
            assert forall|v: VirtPageNum| walk(m, root, v) is None by {
                reveal_with_fuel(node_at, 3);
                assert(node_at(m, root, v, 1) is None);
            }
            assert forall|v: VirtPageNum| #[trigger] nodes_missing(m, root, v) == 2 by {
                assert(node_at(m, root, v, 1) is None);
            }
        }
        table
    }

    /// The place of the leaf entry for `vpn`, after every node that the walk
    /// lacked has been made from a fresh frame and hung in its place. Memory
    /// must have a free frame for each.
    pub fn find_pte_create(&mut self, mem: &mut PhysMemory, vpn: VirtPageNum) -> (r: Option<
        (PhysPageNum, usize),
    >)
        requires
            old(mem).wf(),
            old(self)@.wf(old(mem)@),
            old(mem)@.free_count() >= nodes_missing(old(mem)@, old(self)@.root, vpn),
        ensures
            final(mem).wf(),
            final(self)@.wf(final(mem)@),
            (final(self)@, final(mem)@) == old(self)@.with_path(old(mem)@, vpn),
            final(self)@.grown_from(final(mem)@, old(self)@, old(mem)@),
            final(self)@.owned.len() == old(self)@.owned.len() + nodes_missing(
                old(mem)@,
                old(self)@.root,
                vpn,
            ),
            final(mem)@.free_count() == old(mem)@.free_count() - nodes_missing(
                old(mem)@,
                old(self)@.root,
                vpn,
            ),
            r is Some,
            r == leaf_slot(final(mem)@, old(self)@.root, vpn),
            walk(final(mem)@, old(self)@.root, vpn) == (match walk(
                old(mem)@,
                old(self)@.root,
                vpn,
            ) {
                Some(e) => Some(e),
                None => Some(PageTableEntry { bits: 0 }),
            }),
            forall|v: VirtPageNum|
                walk(old(mem)@, old(self)@.root, v) is Some ==> #[trigger] walk(
                    final(mem)@,
                    old(self)@.root,
                    v,
                ) == walk(old(mem)@, old(self)@.root, v),
            forall|v: VirtPageNum| #[trigger]
                mapping(final(mem)@, old(self)@.root, v) == mapping(
                    old(mem)@,
                    old(self)@.root,
                    v,
                ),
    {
        let idxs = vpn.indexes();
        let mut ppn = self.root_ppn;
        let mut i: usize = 0;
        let ghost root = self@.root;
        let ghost t0 = self@;
        let ghost m0 = mem@;
        let ghost mut j: int = 0;
        proof {
            reveal_with_fuel(node_at, 3);
            self@.lemma_grown_from_self(mem@);
        }
        while i < 3
            invariant
                i <= 2,
                mem.wf(),
                self@.wf(mem@),
                self@.root == root,
                self.root_ppn == root,
                t0 == old(self)@,
                m0 == old(mem)@,
                root == t0.root,
                0 <= j < self@.owned.len(),
                self@.owned[j] == ppn,
                self@.links[j].depth == i,
                node_at(mem@, root, vpn, i as nat) == Some(ppn),
                self@.grown_from(mem@, t0, m0),
                i == 0 ==> self@ == t0 && mem@ == m0,
                i == 1 ==> (self@, mem@) == t0.with_top(m0, vpn),
                i == 2 ==> (self@, mem@) == t0.with_path(m0, vpn),
                self@.owned.len() + nodes_missing(mem@, root, vpn) == t0.owned.len()
                    + nodes_missing(m0, root, vpn),
                mem@.free_count() - nodes_missing(mem@, root, vpn) == m0.free_count()
                    - nodes_missing(m0, root, vpn),
                mem@.free_count() >= nodes_missing(mem@, root, vpn),
                walk(m0, root, vpn) is None ==> walk(mem@, root, vpn) is None || walk(
                    mem@,
                    root,
                    vpn,
                ) == Some(PageTableEntry { bits: 0 }),
                forall|v: VirtPageNum|
                    walk(m0, root, v) is Some ==> #[trigger] walk(mem@, root, v) == walk(
                        m0,
                        root,
                        v,
                    ),
                forall|v: VirtPageNum| #[trigger] mapping(mem@, root, v) == mapping(m0, root, v),
                idxs[0] == vpn.index(0),
                idxs[1] == vpn.index(1),
                idxs[2] == vpn.index(2),
                idxs[0] < 512 && idxs[1] < 512 && idxs[2] < 512,
            decreases 3 - i,
        {
            proof {
                reveal_with_fuel(node_at, 3);
                assert(mem@.allocated(self@.owned[j]));
            }
            if i == 2 {
                return Some((ppn, idxs[2]));
            }
            let mut pte = mem.read(ppn, idxs[i]);
            if !pte.is_valid() {
                let ghost t = self@;
                let ghost m = mem@;
                let ghost s = idxs[i as int] as int;
                let frame = mem.frame_alloc().unwrap();
                let ghost f = frame.ppn;
                pte = PageTableEntry::new(frame.ppn, PTEFlags::V());
                mem.write(ppn, idxs[i], pte);
                self.frames.push(frame);
                proof {
                    self.links@ = self.links@.push(Link { depth: i + 1, parent: j, slot: s });
                    assert(t.can_grow(m, j, s, f));
                    assert(self@.owned =~= t.owned.push(f));
                    assert(self@ == t.grow(j, s, f));
                    m.lemma_hand_out(f);
                    assert(mem@ == t.grow_memory(m, j, s, f));
                    t.lemma_grow_entries(m, j, s, f);
                    t.lemma_grow_wf(m, j, s, f);
                    t.lemma_grown_from_step(m, j, s, f, t0, m0);
                    t.lemma_grow_nodes(m, j, s, f, vpn, 1);
                    t.lemma_grow_nodes(m, j, s, f, vpn, 2);
                    t.lemma_grow_walk(m, j, s, f, vpn);
                    assert forall|v: VirtPageNum| walk(m0, root, v) is Some implies #[trigger] walk(
                        mem@,
                        root,
                        v,
                    ) == walk(m0, root, v) by {
                        t.lemma_grow_walk(m, j, s, f, v);
                        assert(walk(m, root, v) == walk(m0, root, v));
                    }
                    assert forall|v: VirtPageNum| #[trigger]
                        mapping(mem@, root, v) == mapping(m0, root, v) by {
                        t.lemma_grow_walk(m, j, s, f, v);
                        assert(mapping(m, root, v) == mapping(m0, root, v));
                    }
                    assert(mem@.free_set() =~= m.hand_out(f).free_set());
                    assert((self@, mem@) == t.hang_fresh(m, j, s));
                    if i == 1 {
                        assert(t.owned.index_of(ppn) == j) by {
                            let x = t.owned.index_of(ppn);
                            assert(0 <= x < t.owned.len() && t.owned[x] == ppn);
                        }
                    }
                    j = t.owned.len() as int;
                }
            } else {
                proof {
                    j = self@.lemma_node_index(mem@, vpn, (i + 1) as nat);
                }
            }
            ppn = pte.ppn();
            i += 1;
        }
        None
    }

    /// Maps the virtual page `vpn` to the physical page `ppn` with `flags`
    /// and the valid flag. The page must not be mapped, and memory must have
    /// a free frame for each node that the walk lacks. Nodes are made as
    /// needed and stay the table's own.
    pub fn map(&mut self, mem: &mut PhysMemory, vpn: VirtPageNum, ppn: PhysPageNum, flags: PTEFlags)
        requires
            old(mem).wf(),
            old(self)@.wf(old(mem)@),
            mapping(old(mem)@, old(self)@.root, vpn) is None,
            old(mem)@.free_count() >= nodes_missing(old(mem)@, old(self)@.root, vpn),
        ensures
            final(mem).wf(),
            final(self)@.wf(final(mem)@),
            final(self)@ == old(self)@.with_path(old(mem)@, vpn).0,
            final(mem)@ == old(self)@.with_path(old(mem)@, vpn).1.write(
                leaf_slot(old(self)@.with_path(old(mem)@, vpn).1, old(self)@.root, vpn).unwrap().0,
                vpn.index(2) as int,
                PageTableEntry::pack(ppn, PTEFlags { bits: flags.bits | 1 }),
            ),
            final(self)@.grown_from(final(mem)@, old(self)@, old(mem)@),
            final(self)@.owned.len() == old(self)@.owned.len() + nodes_missing(
                old(mem)@,
                old(self)@.root,
                vpn,
            ),
            final(mem)@.free_count() == old(mem)@.free_count() - nodes_missing(
                old(mem)@,
                old(self)@.root,
                vpn,
            ),
            walk(final(mem)@, old(self)@.root, vpn) == Some(
                PageTableEntry::pack(ppn, PTEFlags { bits: flags.bits | 1 }),
            ),
            mapping(final(mem)@, old(self)@.root, vpn) == Some(
                PageTableEntry::pack(ppn, PTEFlags { bits: flags.bits | 1 }),
            ),
            forall|v: VirtPageNum|
                v.key() != vpn.key() ==> #[trigger] mapping(final(mem)@, old(self)@.root, v)
                    == mapping(old(mem)@, old(self)@.root, v),
    {
        let slot = self.find_pte_create(mem, vpn).unwrap();
        let pte = PageTableEntry::new(ppn, flags | PTEFlags::V());
        let ghost t = self@;
        let ghost m = mem@;
        let ghost root = self@.root;
        proof {
            lemma_indexes_reassemble(vpn);
            let k = t.lemma_node_index(m, vpn, 2);
            t.lemma_write_leaf_wf(m, k, slot.1 as int, pte);
            t.lemma_write_leaf_walk(m, k, slot.1 as int, pte, vpn);
            m.lemma_write(slot.0, slot.1 as int, pte);
            lemma_valid_bit(ppn, flags);
            assert forall|v: VirtPageNum| v.key() != vpn.key() implies #[trigger] mapping(
                m.write(slot.0, slot.1 as int, pte),
                root,
                v,
            ) == mapping(old(mem)@, root, v) by {
                t.lemma_write_leaf_walk(m, k, slot.1 as int, pte, v);
                if leaf_slot(m, root, v) == Some((slot.0, slot.1)) {
                    t.lemma_leaf_slots_differ(m, vpn, v);
                }
                assert(mapping(m, root, v) == mapping(old(mem)@, root, v));
            }
            let m3 = m.write(slot.0, slot.1 as int, pte);
            assert(m3.free_set() =~= m.free_set());
            assert(t.owned[k] == slot.0);
            assert(t.owns(slot.0));
            assert forall|q: PhysPageNum| #[trigger]
                m3.allocated(q) == (old(mem)@.allocated(q) || t.owns(q)) by {
                assert(m.allocated(q) == (old(mem)@.allocated(q) || t.owns(q)));
            }
            assert forall|q: PhysPageNum, x: int|
                old(mem)@.holds(q) && 0 <= x < 512 && !t.owns(q) implies #[trigger] m3.entry(q, x)
                == old(mem)@.entry(q, x) by {
                assert(m3.entry(q, x) == m.entry(q, x));
                assert(m.entry(q, x) == old(mem)@.entry(q, x));
            }
        }
        mem.write(slot.0, slot.1, pte);
    }

    /// Unmaps the virtual page `vpn`, which must be mapped: its leaf becomes
    /// the empty entry. No node is given back, not even one that holds
    /// nothing any more.
    pub fn unmap(&mut self, mem: &mut PhysMemory, vpn: VirtPageNum)
        requires
            old(mem).wf(),
            old(self)@.wf(old(mem)@),
            mapping(old(mem)@, old(self)@.root, vpn) is Some,
        ensures
            final(mem).wf(),
            final(self)@ == old(self)@,
            final(self)@.wf(final(mem)@),
            final(mem)@.free_count() == old(mem)@.free_count(),
            final(mem)@ == old(mem)@.write(
                leaf_slot(old(mem)@, old(self)@.root, vpn).unwrap().0,
                vpn.index(2) as int,
                PageTableEntry { bits: 0 },
            ),
            walk(final(mem)@, old(self)@.root, vpn) == Some(PageTableEntry { bits: 0 }),
            mapping(final(mem)@, old(self)@.root, vpn) is None,
            forall|v: VirtPageNum|
                v.key() != vpn.key() ==> #[trigger] walk(final(mem)@, old(self)@.root, v) == walk(
                    old(mem)@,
                    old(self)@.root,
                    v,
                ),
    {
        let slot = self.find_pte(mem, vpn).unwrap();
        let pte = PageTableEntry::empty();
        let ghost t = self@;
        let ghost m = mem@;
        let ghost root = self@.root;
        proof {
            lemma_indexes_reassemble(vpn);
            let k = t.lemma_node_index(m, vpn, 2);
            t.lemma_write_leaf_wf(m, k, slot.1 as int, pte);
            t.lemma_write_leaf_walk(m, k, slot.1 as int, pte, vpn);
            lemma_valid_bit(PhysPageNum(0), PTEFlags { bits: 0 });
            assert forall|v: VirtPageNum| v.key() != vpn.key() implies #[trigger] walk(
                m.write(slot.0, slot.1 as int, pte),
                root,
                v,
            ) == walk(m, root, v) by {
                t.lemma_write_leaf_walk(m, k, slot.1 as int, pte, v);
                if leaf_slot(m, root, v) == Some((slot.0, slot.1)) {
                    t.lemma_leaf_slots_differ(m, vpn, v);
                }
            }
            assert(m.write(slot.0, slot.1 as int, pte).free_set() =~= m.free_set());
        }
        mem.write(slot.0, slot.1, pte);
    }

    /// Ends the table: every frame it owns goes back to the allocator. What
    /// the frames hold is left as it is.
    pub fn release(self, mem: &mut PhysMemory)
        requires
            old(mem).wf(),
            self@.wf(old(mem)@),
        ensures
            final(mem).wf(),
            final(mem)@.start == old(mem)@.start,
            final(mem)@.nodes == old(mem)@.nodes,
            final(mem)@.used.len() == old(mem)@.used.len(),
            forall|q: PhysPageNum| #[trigger]
                final(mem)@.allocated(q) == (old(mem)@.allocated(q) && !self@.owns(q)),
            final(mem)@.free_count() == old(mem)@.free_count() + self@.owned.len(),
    {
        let ghost t = self@;
        let ghost m0 = mem@;
        let mut frames = self.frames;
        assert(t.owned =~= Seq::new(frames@.len(), |k: int| frames@[k].ppn));
        while frames.len() > 0
            invariant
                mem.wf(),
                m0.inv(),
                t.wf(m0),
                frames@.len() <= t.owned.len(),
                forall|k: int| 0 <= k < frames@.len() ==> (#[trigger] frames@[k]).ppn == t.owned[k],
                mem@.start == m0.start,
                mem@.nodes == m0.nodes,
                mem@.used.len() == m0.used.len(),
                forall|q: PhysPageNum| #[trigger]
                    mem@.allocated(q) == (m0.allocated(q) && !(exists|k: int|
                        frames@.len() <= k < t.owned.len() && t.owned[k] == q)),
                mem@.free_count() == m0.free_count() + t.owned.len() - frames@.len(),
            decreases frames@.len(),
        {
            let ghost m = mem@;
            let ghost n = frames@.len() as int;
            let frame = frames.pop().unwrap();
            proof {
                let p = frame.ppn;
                assert(p == t.owned[n - 1]);
                assert(m0.allocated(t.owned[n - 1]));
                assert(m.allocated(p));
                m.lemma_take_back(p);
                assert forall|q: PhysPageNum| #[trigger]
                    m.take_back(p).allocated(q) == (m0.allocated(q) && !(exists|k: int|
                        n - 1 <= k < t.owned.len() && t.owned[k] == q)) by {
                    if q != p {
                        assert(m.take_back(p).allocated(q) == m.allocated(q));
                        if exists|k: int| n - 1 <= k < t.owned.len() && t.owned[k] == q {
                            let k = choose|k: int| n - 1 <= k < t.owned.len() && t.owned[k] == q;
                            assert(n <= k < t.owned.len() && t.owned[k] == q);
                        }
                    }
                }
            }
            mem.frame_dealloc(frame);
        }
        proof {
            assert forall|q: PhysPageNum| #[trigger]
                mem@.allocated(q) == (m0.allocated(q) && !t.owns(q)) by {
                if t.owns(q) {
                    let k = choose|k: int| 0 <= k < t.owned.len() && t.owned[k] == q;
                    assert(0 <= k < t.owned.len() && t.owned[k] == q);
                }
            }
        }
    }
}

} // verus!
