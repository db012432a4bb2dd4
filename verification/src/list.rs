//! The arena-backed doubly linked list, its sequence iterator and its cursor.
//!
//! Nodes live in a growable arena of slots addressed by `usize` indices; the
//! reserved index `OUT_OF_BOUNDS` (the maximum representable value) means "no
//! node". A slot is free, detached (unlinked from the chain but still
//! physically populated, so that an outstanding cursor at that index fails
//! cleanly instead of reading recycled data), or live. A free-index stack
//! recycles fully erased slots, most recently freed first.
//!
//! The verified model of a list is the sequence of its `(key, value)` entries
//! from head to tail (`self@`), together with the sequence of slot indices
//! that carries them (`self.chain()`), the free stack (`self.free_slots()`)
//! and the per-slot state (`self.live_at`, `self.entry_at`).

use vstd::prelude::*;
use crate::order::{Cmp, TotalOrdered, lt_k, eq_k};

verus! {

/// Indicates that an iterator has passed beyond the limits of the list.
pub const OUT_OF_BOUNDS: usize = usize::MAX;

/// What a list operation can fail with.
#[derive(Clone, Copy, Debug, PartialEq, Eq, Structural)]
pub enum MapError {
    /// An index outside the arena's allocated range was presented.
    NotFound,
    /// The index addresses a freed or disconnected slot.
    Tombstoned,
    /// A structurally impossible state was observed; indicates a violated
    /// aliasing contract, never a normal error path.
    InvariantViolation,
    /// Aliased mutable access was detected. With the list held behind an
    /// exclusive reference this cannot arise, so no operation here returns
    /// it; callers that share a list through their own runtime-checked cell
    /// may map that cell's failure to this variant.
    BorrowConflict,
}

#[derive(Clone, Debug)]
struct Node<K, V> {
    prev_: usize,
    next_: usize,
    key_: K,
    value_: V,
}

#[derive(Clone, Debug)]
enum Slot<K, V> {
    /// Empty; its index is on the free stack and may be reused.
    Free,
    /// Unlinked from the chain; permanently occupied-but-dead, never reused
    /// until `clear`, so that a stale index keeps failing with `Tombstoned`
    /// instead of silently addressing recycled data.
    Detached,
    /// Linked into the chain.
    Live(Node<K, V>),
}

impl<K, V> Slot<K, V> {
    spec fn node(self) -> Node<K, V> {
        match self {
            Slot::Live(n) => n,
            _ => arbitrary(),
        }
    }
}

/// borrow checker work-around: the relink a removal must apply, computed
/// before any slot is touched.
struct EraseOperation {
    // (node index, new next index)
    change_prev_: Option<(usize, usize)>,
    // the node to erase
    erase_: usize,
    // (node index, new prev index)
    change_next_: Option<(usize, usize)>,
}

/// The slot at `j` kept its state across an operation: live stays live with
/// the same entry, anything else stays non-live.
pub open spec fn slot_preserved<K, V>(
    pre: LinkedList<K, V>,
    post: LinkedList<K, V>,
    j: int,
) -> bool {
    &&& post.live_at(j) == pre.live_at(j)
    &&& (pre.live_at(j) ==> post.entry_at(j) == pre.entry_at(j))
}

/// One entry was inserted at chain position `p`, in the slot `idx` that the
/// allocator was due to hand out: the chain and the entry sequence grow by
/// that one element, the free stack loses its top (or the arena grows by one
/// slot), and every other slot is untouched.
pub open spec fn inserted_at<K, V>(
    pre: LinkedList<K, V>,
    post: LinkedList<K, V>,
    p: int,
    idx: usize,
    key: K,
    value: V,
) -> bool {
    &&& idx == pre.next_slot()
    &&& post.chain() == pre.chain().insert(p, idx)
    &&& post@ == pre@.insert(p, (key, value))
    &&& post.live_at(idx as int)
    &&& post.entry_at(idx as int) == (key, value)
    &&& post.detached_count() == pre.detached_count()
    &&& (if pre.free_slots().len() > 0 {
        post.free_slots() == pre.free_slots().drop_last()
            && post.slot_count() == pre.slot_count()
    } else {
        post.free_slots() == pre.free_slots()
            && post.slot_count() == pre.slot_count() + 1
    })
    &&& (forall|j: int| 0 <= j < pre.slot_count() && j != idx
            ==> #[trigger] slot_preserved(pre, post, j))
}

/// The entry at chain position `p` was removed: the chain and the entry
/// sequence lose that one element, its slot goes to the free stack (full
/// erase) or becomes permanently detached (disconnect-only), and every other
/// slot is untouched.
pub open spec fn removed_at<K, V>(
    pre: LinkedList<K, V>,
    post: LinkedList<K, V>,
    p: int,
    disconnect: bool,
) -> bool {
    &&& post.chain() == pre.chain().remove(p)
    &&& post@ == pre@.remove(p)
    &&& post.slot_count() == pre.slot_count()
    &&& !post.live_at(pre.chain()[p] as int)
    &&& (if disconnect {
        post.free_slots() == pre.free_slots()
            && post.detached_count() == pre.detached_count() + 1
    } else {
        post.free_slots() == pre.free_slots().push(pre.chain()[p])
            && post.detached_count() == pre.detached_count()
    })
    &&& (forall|j: int| 0 <= j < pre.slot_count() && j != pre.chain()[p]
            ==> #[trigger] slot_preserved(pre, post, j))
}

/// The keys of an entry sequence are non-decreasing from front to back.
pub open spec fn entries_sorted<K: TotalOrdered, V>(s: Seq<(K, V)>) -> bool {
    forall|p: int, q: int| 0 <= p < q < s.len() ==> (#[trigger] s[p].0).le(#[trigger] s[q].0)
}

/// Where an ordered insert will act: a comparison-equal entry already sits
/// at a chain position (the insert is a no-op), or the new entry goes in
/// front of a chain position, or it goes at the back.
pub ghost enum InsertPlan {
    Existing(int),
    Before(int),
    Append,
}

/// The forward scan of an ordered insert, walking from chain position `i`
/// toward the tail: stop as a no-op on the first comparison-equal key, stop
/// in front of the first strictly greater key, else run off the end.
pub open spec fn fwd_plan<K: TotalOrdered, V>(s: Seq<(K, V)>, i: int, key: K) -> InsertPlan
    decreases s.len() - i,
{
    if i < 0 || i >= s.len() {
        InsertPlan::Append
    } else if eq_k(key, s[i].0) {
        InsertPlan::Existing(i)
    } else if lt_k(key, s[i].0) {
        InsertPlan::Before(i)
    } else {
        fwd_plan(s, i + 1, key)
    }
}

/// The backward scan of an ordered insert, walking from chain position `i`
/// toward the head while remembering the best insertion point seen (`best`):
/// stop as a no-op on a comparison-equal key, keep walking past strictly
/// greater keys, and stop at the first key not greater than the new one.
pub open spec fn bwd_plan<K: TotalOrdered, V>(s: Seq<(K, V)>, i: int, best: int, key: K) -> InsertPlan
    decreases i + 1,
{
    if i < 0 {
        InsertPlan::Before(best)
    } else if eq_k(key, s[i].0) {
        InsertPlan::Existing(i)
    } else if lt_k(key, s[i].0) {
        bwd_plan(s, i - 1, i, key)
    } else {
        InsertPlan::Before(best)
    }
}

/// What an ordered insert of `key` does to the entry sequence `s` when its
/// scan is anchored at chain position `hpos`: scan forward when the key is
/// not below the anchor's, else scan backward.
pub open spec fn insert_plan<K: TotalOrdered, V>(s: Seq<(K, V)>, hpos: int, key: K) -> InsertPlan {
    if s.len() == 0 {
        InsertPlan::Append
    } else if !lt_k(key, s[hpos].0) {
        fwd_plan(s, hpos, key)
    } else {
        bwd_plan(s, hpos, hpos, key)
    }
}

/// The backward scan of `lower_bound`, walking from chain position `i`
/// toward the head: remember each position whose key is not below `key`,
/// and stop at the first position whose key is strictly below it.
pub open spec fn lb_scan<K: TotalOrdered, V>(
    s: Seq<(K, V)>,
    i: int,
    found: Option<int>,
    key: K,
) -> Option<int>
    decreases i + 1,
{
    if i < 0 {
        found
    } else if key.le(s[i].0) {
        lb_scan(s, i - 1, Some(i), key)
    } else {
        found
    }
}

/// A doubly linked min list over a slot arena.
/// The head (top/front) of the list is the first item, ordered below all
/// other items; the tail (bottom/back) is the last.
#[derive(Clone)]
pub struct LinkedList<K, V> {
    head_: usize,
    tail_: usize,
    nodes_: Vec<Slot<K, V>>,
    id_pool_: Vec<usize>,
    chain_g: Ghost<Seq<usize>>,
    detached_g: Ghost<Seq<usize>>,
}

impl<K, V> View for LinkedList<K, V> {
    type V = Seq<(K, V)>;

    closed spec fn view(&self) -> Seq<(K, V)> {
        Seq::new(self.chain_g@.len(), |p: int| self.entry_at(self.chain_g@[p] as int))
    }
}

impl<K, V> LinkedList<K, V> {
    /// The slot indices of the chain, head to tail.
    pub closed spec fn chain(&self) -> Seq<usize> {
        self.chain_g@
    }

    /// The free-index stack; the last element is reused first.
    pub closed spec fn free_slots(&self) -> Seq<usize> {
        self.id_pool_@
    }

    /// Number of allocated slots (live, detached and free together).
    pub closed spec fn slot_count(&self) -> nat {
        self.nodes_@.len()
    }

    /// Number of detached slots.
    pub closed spec fn detached_count(&self) -> nat {
        self.detached_g@.len()
    }

    /// The slot at `i` is allocated and linked into the chain.
    pub closed spec fn live_at(&self, i: int) -> bool {
        0 <= i < self.nodes_@.len() && self.nodes_@[i] is Live
    }

    /// The entry stored in the slot at `i` (meaningful when not free).
    pub closed spec fn entry_at(&self, i: int) -> (K, V) {
        (self.nodes_@[i].node().key_, self.nodes_@[i].node().value_)
    }

    /// The chain position of the slot index `i` (meaningful when `live_at(i)`).
    pub closed spec fn pos_of(&self, i: usize) -> int {
        self.chain_g@.index_of(i)
    }

    /// The index the next allocation will use: the top of the free stack if
    /// one exists, else the append position.
    pub open spec fn next_slot(&self) -> usize {
        if self.free_slots().len() == 0 {
            self.slot_count() as usize
        } else {
            self.free_slots().last()
        }
    }

    /// The slot index holding the head entry, or the sentinel when the chain
    /// is empty.
    pub open spec fn head_index(&self) -> usize {
        if self.chain().len() == 0 {
            OUT_OF_BOUNDS
        } else {
            self.chain()[0]
        }
    }

    /// The slot index holding the tail entry, or the sentinel when the chain
    /// is empty.
    pub open spec fn tail_index(&self) -> usize {
        if self.chain().len() == 0 {
            OUT_OF_BOUNDS
        } else {
            self.chain().last()
        }
    }

    /// Structural well-formedness: every constructor establishes this and
    /// every operation preserves it.
    ///
    /// The chain visits pairwise distinct live slots; neighbours point at
    /// each other; head and tail bracket the chain; the free stack holds
    /// exactly the free slots; slots are partitioned into live, detached and
    /// free; and no slot index collides with the sentinel.
    pub closed spec fn wf(&self) -> bool {
        let n = self.nodes_@.len() as int;
        let c = self.chain_g@;
        let d = self.detached_g@;
        let f = self.id_pool_@;
        &&& n < OUT_OF_BOUNDS
        &&& c.no_duplicates()
        &&& d.no_duplicates()
        &&& f.no_duplicates()
        &&& (forall|p: int| #![trigger c[p]] 0 <= p < c.len() ==>
                c[p] < n && self.nodes_@[c[p] as int] is Live)
        &&& (forall|p: int| #![trigger d[p]] 0 <= p < d.len() ==>
                d[p] < n && self.nodes_@[d[p] as int] is Detached)
        &&& (forall|p: int| #![trigger f[p]] 0 <= p < f.len() ==>
                f[p] < n && self.nodes_@[f[p] as int] is Free)
        &&& (forall|j: int| #![trigger self.nodes_@[j]] 0 <= j < n ==> {
                &&& (self.nodes_@[j] is Live ==> c.contains(j as usize))
                &&& (self.nodes_@[j] is Detached ==> d.contains(j as usize))
                &&& (self.nodes_@[j] is Free ==> f.contains(j as usize))
            })
        &&& n == c.len() + d.len() + f.len()
        &&& (forall|p: int| #![trigger c[p]] 0 <= p < c.len() ==>
                self.nodes_@[c[p] as int].node().prev_
                    == (if p == 0 { OUT_OF_BOUNDS } else { c[p - 1] }))
        &&& (forall|p: int| #![trigger c[p]] 0 <= p < c.len() ==>
                self.nodes_@[c[p] as int].node().next_
                    == (if p == c.len() - 1 { OUT_OF_BOUNDS } else { c[p + 1] }))
        &&& self.head_ == self.head_index()
        &&& self.tail_ == self.tail_index()
    }

    /// For a live slot index, the chain position given by `pos_of` really is
    /// its (unique) position, and the entry there is the slot's entry.
    pub proof fn lemma_pos_of(&self, i: usize)
        requires
            self.wf(),
            self.live_at(i as int),
        ensures
            0 <= self.pos_of(i) < self.chain().len(),
            self.chain()[self.pos_of(i)] == i,
            self@[self.pos_of(i)] == self.entry_at(i as int),
            forall|p: int| 0 <= p < self.chain().len() && self.chain()[p] == i
                ==> p == self.pos_of(i),
    {
        assert(self.chain_g@.contains(i));
        let p0 = self.chain_g@.index_of(i);
        assert(0 <= p0 < self.chain_g@.len() && self.chain_g@[p0] == i);
        assert forall|p: int| 0 <= p < self.chain().len() && self.chain()[p] == i
            implies p == p0 by {
            if p != p0 {
                assert(self.chain_g@[p] == self.chain_g@[p0]);
            }
        }
    }

    /// Constructs a new, empty list with the specified capacity reserved in
    /// the arena and the free stack.
    pub fn with_capacity(capacity: usize) -> (r: Self)
        ensures
            r.wf(),
            r@ == Seq::<(K, V)>::empty(),
            r.chain() == Seq::<usize>::empty(),
            r.slot_count() == 0,
            r.free_slots() == Seq::<usize>::empty(),
            r.detached_count() == 0,
    {
        let r = Self {
            head_: OUT_OF_BOUNDS,
            tail_: OUT_OF_BOUNDS,
            nodes_: Vec::with_capacity(capacity),
            id_pool_: Vec::with_capacity(capacity),
            chain_g: Ghost(Seq::empty()),
            detached_g: Ghost(Seq::empty()),
        };
        proof {
            assert(r@ =~= Seq::<(K, V)>::empty());
        }
        r
    }

    /// Returns the capacity of the two vectors (slot arena, free stack).
    pub fn capacity(&self) -> (r: (usize, usize))
        ensures
            r.0 >= self.slot_count(),
            r.1 >= self.free_slots().len(),
    {
        (vec_capacity(&self.nodes_), vec_capacity(&self.id_pool_))
    }

    /// Returns a fresh traversal over all entries, its forward cursor at
    /// the head and its backward cursor at the tail.
    pub fn iter(&self) -> (r: ListIterator<'_, K, V>)
        requires
            self.wf(),
        ensures
            r.wf(),
            r.list() == *self,
            r.remaining() == self@,
    {
        let r = ListIterator {
            list_: self,
            my_next_: self.head_,
            my_back_: self.tail_,
            pos: Ghost(0),
            bpos: Ghost(self@.len() as int),
        };
        proof {
            assert(r.remaining() =~= self@);
        }
        r
    }

    /// Returns the number of inserted elements (live and detached together;
    /// a detached slot still counts as inserted until `clear`).
    pub fn len(&self) -> (r: usize)
        requires
            self.wf(),
        ensures
            r == self@.len() + self.detached_count(),
    {
        self.nodes_.len() - self.id_pool_.len()
    }

    /// Returns true if the list holds no elements.
    pub fn is_empty(&self) -> (r: bool)
        requires
            self.wf(),
        ensures
            r == (self@.len() + self.detached_count() == 0),
    {
        self.len() == 0
    }

    /// Clears the list: every slot, the free stack and both ends are reset.
    /// Warning: any cursor referring to this list is corrupted by this.
    pub fn clear(&mut self)
        ensures
            final(self).wf(),
            final(self)@ == Seq::<(K, V)>::empty(),
            final(self).chain() == Seq::<usize>::empty(),
            final(self).slot_count() == 0,
            final(self).free_slots() == Seq::<usize>::empty(),
            final(self).detached_count() == 0,
    {
        self.head_ = OUT_OF_BOUNDS;
        self.tail_ = OUT_OF_BOUNDS;
        self.nodes_.clear();
        self.id_pool_.clear();
        self.chain_g = Ghost(Seq::empty());
        self.detached_g = Ghost(Seq::empty());
        proof {
            assert(self@ =~= Seq::<(K, V)>::empty());
        }
    }

    /// Returns the index the next insert will allocate. The value goes stale
    /// as soon as any insert or remove is performed on the list.
    pub fn next_free_index(&self) -> (r: usize)
        requires
            self.wf(),
        ensures
            r == self.next_slot(),
    {
        if self.id_pool_.len() == 0 {
            self.nodes_.len()
        } else {
            self.id_pool_[self.id_pool_.len() - 1]
        }
    }

    /// Returns the item key at `index`.
    pub fn get_k(&self, index: usize) -> (r: Result<&K, MapError>)
        requires
            self.wf(),
        ensures
            match r {
                Ok(k) => self.live_at(index as int) && *k == self.entry_at(index as int).0,
                Err(MapError::NotFound) => index >= self.slot_count(),
                Err(MapError::Tombstoned) =>
                    index < self.slot_count() && !self.live_at(index as int),
                Err(_) => false,
            },
            r is Ok <==> self.live_at(index as int),
    {
        if index >= self.nodes_.len() {
            return Err(MapError::NotFound);
        }
        match &self.nodes_[index] {
            Slot::Live(node) => Ok(&node.key_),
            _ => Err(MapError::Tombstoned),
        }
    }

    /// Returns the item value at `index`.
    pub fn get_v(&self, index: usize) -> (r: Result<&V, MapError>)
        requires
            self.wf(),
        ensures
            match r {
                Ok(v) => self.live_at(index as int) && *v == self.entry_at(index as int).1,
                Err(MapError::NotFound) => index >= self.slot_count(),
                Err(MapError::Tombstoned) =>
                    index < self.slot_count() && !self.live_at(index as int),
                Err(_) => false,
            },
            r is Ok <==> self.live_at(index as int),
    {
        if index >= self.nodes_.len() {
            return Err(MapError::NotFound);
        }
        match &self.nodes_[index] {
            Slot::Live(node) => Ok(&node.value_),
            _ => Err(MapError::Tombstoned),
        }
    }

    /// Returns the item key and value at `index`.
    pub fn get(&self, index: usize) -> (r: Result<(&K, &V), MapError>)
        requires
            self.wf(),
        ensures
            match r {
                Ok(e) => self.live_at(index as int)
                    && *e.0 == self.entry_at(index as int).0
                    && *e.1 == self.entry_at(index as int).1,
                Err(MapError::NotFound) => index >= self.slot_count(),
                Err(MapError::Tombstoned) =>
                    index < self.slot_count() && !self.live_at(index as int),
                Err(_) => false,
            },
            r is Ok <==> self.live_at(index as int),
    {
        if index >= self.nodes_.len() {
            return Err(MapError::NotFound);
        }
        match &self.nodes_[index] {
            Slot::Live(node) => Ok((&node.key_, &node.value_)),
            _ => Err(MapError::Tombstoned),
        }
    }

    /// Returns the key of the entry just before the one at `index`; fails
    /// with `NotFound` when the entry at `index` is the head.
    pub fn get_prev_k(&self, index: usize) -> (r: Result<&K, MapError>)
        requires
            self.wf(),
        ensures
            match r {
                Ok(k) => self.live_at(index as int) && self.pos_of(index) > 0
                    && *k == self@[self.pos_of(index) - 1].0,
                Err(MapError::NotFound) => index >= self.slot_count()
                    || (self.live_at(index as int) && self.pos_of(index) == 0),
                Err(MapError::Tombstoned) =>
                    index < self.slot_count() && !self.live_at(index as int),
                Err(_) => false,
            },
    {
        if index >= self.nodes_.len() {
            return Err(MapError::NotFound);
        }
        let prev: usize;
        match &self.nodes_[index] {
            Slot::Live(node) => {
                prev = node.prev_;
            },
            _ => {
                return Err(MapError::Tombstoned);
            },
        }
        proof {
            self.lemma_pos_of(index);
        }
        if prev >= self.nodes_.len() {
            return Err(MapError::NotFound);
        }
        proof {
            let p = self.pos_of(index);
            assert(prev == self.chain_g@[p - 1]);
            self.lemma_pos_of(prev);
        }
        match &self.nodes_[prev] {
            Slot::Live(node) => Ok(&node.key_),
            _ => Err(MapError::Tombstoned),
        }
    }

    /// Return the head index (the sentinel when the list chain is empty).
    pub fn head(&self) -> (r: usize)
        requires
            self.wf(),
        ensures
            r == self.head_index(),
    {
        self.head_
    }

    /// Return the tail index (the sentinel when the list chain is empty).
    pub fn tail(&self) -> (r: usize)
        requires
            self.wf(),
        ensures
            r == self.tail_index(),
    {
        self.tail_
    }

    /// Peek the head key without removing it.
    pub fn peek_front_k(&self) -> (r: Option<&K>)
        requires
            self.wf(),
        ensures
            match r {
                Some(k) => self@.len() > 0 && *k == self@[0].0,
                None => self@.len() == 0,
            },
    {
        if self.head_ == OUT_OF_BOUNDS {
            return None;
        }
        match &self.nodes_[self.head_] {
            Slot::Live(node) => Some(&node.key_),
            _ => None,
        }
    }

    /// Peek the tail key without removing it.
    pub fn peek_back_k(&self) -> (r: Option<&K>)
        requires
            self.wf(),
        ensures
            match r {
                Some(k) => self@.len() > 0 && *k == self@[self@.len() - 1].0,
                None => self@.len() == 0,
            },
    {
        if self.tail_ == OUT_OF_BOUNDS {
            return None;
        }
        match &self.nodes_[self.tail_] {
            Slot::Live(node) => Some(&node.key_),
            _ => None,
        }
    }
    /// Store `new_node` as a live slot: in place at `insertion_index` when
    /// that reuses an existing slot, else appended at the back of the arena.
    fn replace_or_push_(&mut self, insertion_index: usize, new_node: Node<K, V>) -> (r: usize)
        requires
            insertion_index <= old(self).nodes_@.len(),
        ensures
            r == insertion_index,
            final(self).nodes_@ == (if insertion_index < old(self).nodes_@.len() {
                old(self).nodes_@.update(insertion_index as int, Slot::Live(new_node))
            } else {
                old(self).nodes_@.push(Slot::Live(new_node))
            }),
            final(self).head_ == old(self).head_,
            final(self).tail_ == old(self).tail_,
            final(self).id_pool_@ == old(self).id_pool_@,
            final(self).chain_g == old(self).chain_g,
            final(self).detached_g == old(self).detached_g,
    {
        if insertion_index == self.nodes_.len() {
            self.nodes_.push(Slot::Live(new_node));
        } else {
            self.nodes_[insertion_index] = Slot::Live(new_node);
        }
        insertion_index
    }

    /// Pop the most recently freed slot index off the free stack, or hand
    /// out the append position when the stack is empty.
    fn alloc_index_(&mut self) -> (r: usize)
        requires
            old(self).wf(),
        ensures
            r == old(self).next_slot(),
            final(self).nodes_@ == old(self).nodes_@,
            final(self).head_ == old(self).head_,
            final(self).tail_ == old(self).tail_,
            final(self).chain_g == old(self).chain_g,
            final(self).detached_g == old(self).detached_g,
            final(self).id_pool_@ == (if old(self).id_pool_@.len() > 0 {
                old(self).id_pool_@.drop_last()
            } else {
                old(self).id_pool_@
            }),
            r < OUT_OF_BOUNDS,
            old(self).id_pool_@.len() > 0 ==> r < old(self).nodes_@.len()
                && old(self).nodes_@[r as int] is Free,
            old(self).id_pool_@.len() == 0 ==> r == old(self).nodes_@.len(),
    {
        if self.id_pool_.len() > 0 {
            let r = self.id_pool_.pop().unwrap();
            proof {
                assert(old(self).id_pool_@[old(self).id_pool_@.len() - 1] == r);
            }
            r
        } else {
            self.nodes_.len()
        }
    }

    /// Add an item at the front of the list.
    /// Note that this ignores the order of items, use with care.
    pub fn push_front_(&mut self, key: K, value: V) -> (r: Result<usize, MapError>)
        requires
            old(self).wf(),
            old(self).slot_count() + 1 < OUT_OF_BOUNDS,
        ensures
            final(self).wf(),
            r is Ok,
            inserted_at(*old(self), *final(self), 0, r.unwrap(), key, value),
    {
        let ghost pre = *old(self);
        let insertion_index = self.alloc_index_();
        let new_node: Node<K, V>;
        if self.head_ == OUT_OF_BOUNDS {
            // This will be the first element in the list
            proof {
                assert(pre.chain_g@.len() == 0);
            }
            self.head_ = insertion_index;
            self.tail_ = insertion_index;
            new_node = Node {
                next_: OUT_OF_BOUNDS,
                prev_: OUT_OF_BOUNDS,
                key_: key,
                value_: value,
            };
        } else {
            // there is a previous head to relink
            let h = self.head_;
            proof {
                assert(pre.chain_g@.len() > 0 && h == pre.chain_g@[0]);
                assert(h < self.nodes_@.len() && self.nodes_@[h as int] is Live);
            }
            new_node = Node {
                next_: h,
                prev_: OUT_OF_BOUNDS,
                key_: key,
                value_: value,
            };
            match &mut self.nodes_[h] {
                Slot::Live(prev_head) => {
                    prev_head.prev_ = insertion_index;
                },
                _ => {
                    proof {
                        assert(false);
                    }
                    return Err(MapError::InvariantViolation);
                },
            }
            self.head_ = insertion_index;
        }
        let r = self.replace_or_push_(insertion_index, new_node);
        self.chain_g = Ghost(pre.chain_g@.insert(0, insertion_index));
        proof {
            self.lemma_insert_ok(pre, 0, insertion_index, key, value);
        }
        Ok(r)
    }

    /// Add an item at the back of the list.
    /// Note that this ignores the order of items, use with care.
    pub fn push_back_(&mut self, key: K, value: V) -> (r: Result<usize, MapError>)
        requires
            old(self).wf(),
            old(self).slot_count() + 1 < OUT_OF_BOUNDS,
        ensures
            final(self).wf(),
            r is Ok,
            inserted_at(
                *old(self),
                *final(self),
                old(self)@.len() as int,
                r.unwrap(),
                key,
                value,
            ),
    {
        let ghost pre = *old(self);
        let insertion_index = self.alloc_index_();
        let new_node: Node<K, V>;
        if self.tail_ == OUT_OF_BOUNDS {
            // This will be the first element in the list
            proof {
                assert(pre.chain_g@.len() == 0);
            }
            self.head_ = insertion_index;
            self.tail_ = insertion_index;
            new_node = Node {
                next_: OUT_OF_BOUNDS,
                prev_: OUT_OF_BOUNDS,
                key_: key,
                value_: value,
            };
        } else {
            // there is a previous tail to relink
            let t = self.tail_;
            proof {
                assert(pre.chain_g@.len() > 0 && t == pre.chain_g@[pre.chain_g@.len() - 1]);
                assert(t < self.nodes_@.len() && self.nodes_@[t as int] is Live);
            }
            new_node = Node {
                next_: OUT_OF_BOUNDS,
                prev_: t,
                key_: key,
                value_: value,
            };
            match &mut self.nodes_[t] {
                Slot::Live(prev_tail) => {
                    prev_tail.next_ = insertion_index;
                },
                _ => {
                    proof {
                        assert(false);
                    }
                    return Err(MapError::InvariantViolation);
                },
            }
            self.tail_ = insertion_index;
        }
        let r = self.replace_or_push_(insertion_index, new_node);
        self.chain_g = Ghost(pre.chain_g@.insert(pre.chain_g@.len() as int, insertion_index));
        proof {
            self.lemma_insert_ok(pre, pre.chain_g@.len() as int, insertion_index, key, value);
        }
        Ok(r)
    }

    /// Insert a new entry immediately before the node at `index`; the
    /// sentinel degrades to a push at the front.
    /// Note that this ignores the order of items, use with care.
    pub fn insert_before_(&mut self, index: usize, key: K, value: V) -> (r: Result<
        usize,
        MapError,
    >)
        requires
            old(self).wf(),
            old(self).slot_count() + 1 < OUT_OF_BOUNDS,
        ensures
            final(self).wf(),
            match r {
                Ok(idx) => (index == OUT_OF_BOUNDS || old(self).live_at(index as int))
                    && inserted_at(
                    *old(self),
                    *final(self),
                    if index == OUT_OF_BOUNDS { 0 } else { old(self).pos_of(index) },
                    idx,
                    key,
                    value,
                ),
                Err(MapError::NotFound) => index != OUT_OF_BOUNDS
                    && index >= old(self).slot_count() && *final(self) == *old(self),
                Err(MapError::Tombstoned) => index < old(self).slot_count()
                    && !old(self).live_at(index as int) && *final(self) == *old(self),
                Err(_) => false,
            },
            r is Ok <==> (index == OUT_OF_BOUNDS || old(self).live_at(index as int)),
    {
        if index == OUT_OF_BOUNDS {
            return self.push_front_(key, value);
        }
        if index >= self.nodes_.len() {
            return Err(MapError::NotFound);
        }
        match &self.nodes_[index] {
            Slot::Live(_) => {},
            _ => {
                return Err(MapError::Tombstoned);
            },
        }
        let ghost pre = *old(self);
        proof {
            pre.lemma_pos_of(index);
        }
        let ghost p = pre.pos_of(index);
        let insertion_index = self.alloc_index_();
        // relink the node at `index` and remember its old predecessor
        let prev_node: usize;
        match &mut self.nodes_[index] {
            Slot::Live(next_node) => {
                prev_node = next_node.prev_;
                next_node.prev_ = insertion_index;
            },
            _ => {
                proof {
                    assert(false);
                }
                return Err(MapError::InvariantViolation);
            },
        }
        let new_node = Node {
            next_: index,
            prev_: prev_node,
            key_: key,
            value_: value,
        };
        let r = self.replace_or_push_(insertion_index, new_node);
        if prev_node != OUT_OF_BOUNDS {
            proof {
                assert(p > 0 && prev_node == pre.chain_g@[p - 1]);
                assert(prev_node < self.nodes_@.len());
                assert(prev_node != index && prev_node != insertion_index);
                assert(self.nodes_@[prev_node as int] is Live);
            }
            match &mut self.nodes_[prev_node] {
                Slot::Live(pn) => {
                    pn.next_ = insertion_index;
                },
                _ => {
                    proof {
                        assert(false);
                    }
                    return Err(MapError::InvariantViolation);
                },
            }
        } else {
            // We just inserted at the first position
            proof {
                assert(p == 0);
            }
            self.head_ = insertion_index;
        }
        self.chain_g = Ghost(pre.chain_g@.insert(p, insertion_index));
        proof {
            self.lemma_insert_ok(pre, p, insertion_index, key, value);
        }
        Ok(r)
    }

    /// The state after the pointer surgery of an insert at chain position
    /// `p` is well formed and is exactly the old state with one entry
    /// inserted there.
    /// The pointer surgery an insert at chain position `p` performs, as a
    /// relation between the state before (`pre`) and after (`self`): the new
    /// node sits in slot `idx` pointing at its neighbours, the neighbours
    /// point back, the chain gained `idx` at `p`, and nothing else changed.
    spec fn insert_surgery(&self, pre: Self, p: int, idx: usize, key: K, value: V) -> bool {
        &&& pre.wf()
        &&& pre.slot_count() + 1 < OUT_OF_BOUNDS
        &&& 0 <= p <= pre.chain_g@.len()
        &&& idx == pre.next_slot()
        &&& self.chain_g@ == pre.chain_g@.insert(p, idx)
        &&& self.detached_g == pre.detached_g
        &&& self.id_pool_@ == (if pre.id_pool_@.len() > 0 {
            pre.id_pool_@.drop_last()
        } else {
            pre.id_pool_@
        })
        &&& self.nodes_@.len() == (if idx < pre.nodes_@.len() {
            pre.nodes_@.len()
        } else {
            pre.nodes_@.len() + 1
        })
        &&& self.nodes_@[idx as int] == Slot::Live(Node {
            prev_: if p == 0 { OUT_OF_BOUNDS } else { pre.chain_g@[p - 1] },
            next_: if p == pre.chain_g@.len() { OUT_OF_BOUNDS } else { pre.chain_g@[p] },
            key_: key,
            value_: value,
        })
        &&& p > 0 ==> self.nodes_@[pre.chain_g@[p - 1] as int] == Slot::Live(Node {
            prev_: pre.nodes_@[pre.chain_g@[p - 1] as int].node().prev_,
            next_: idx,
            key_: pre.nodes_@[pre.chain_g@[p - 1] as int].node().key_,
            value_: pre.nodes_@[pre.chain_g@[p - 1] as int].node().value_,
        })
        &&& p < pre.chain_g@.len() ==> self.nodes_@[pre.chain_g@[p] as int] == Slot::Live(Node {
            prev_: idx,
            next_: pre.nodes_@[pre.chain_g@[p] as int].node().next_,
            key_: pre.nodes_@[pre.chain_g@[p] as int].node().key_,
            value_: pre.nodes_@[pre.chain_g@[p] as int].node().value_,
        })
        &&& (forall|j: int| #![trigger self.nodes_@[j]] 0 <= j < pre.nodes_@.len() && j != idx
            && (p == 0 || j != pre.chain_g@[p - 1])
            && (p == pre.chain_g@.len() || j != pre.chain_g@[p])
            ==> self.nodes_@[j] == pre.nodes_@[j])
        &&& self.head_ == (if p == 0 { idx } else { pre.head_ })
        &&& self.tail_ == (if p == pre.chain_g@.len() { idx } else { pre.tail_ })
    }

    /// After the surgery the chain is the old chain with `idx` spliced in:
    /// how its positions map to the old ones, and that it stays duplicate
    /// free.
    #[verifier::spinoff_prover]
    proof fn lemma_insert_chain(&self, pre: Self, p: int, idx: usize, key: K, value: V)
        requires
            self.insert_surgery(pre, p, idx, key, value),
        ensures
            !pre.chain_g@.contains(idx),
            forall|q: int| 0 <= q < self.chain_g@.len() ==> #[trigger] self.chain_g@[q]
                == (if q < p {
                    pre.chain_g@[q]
                } else if q == p {
                    idx
                } else {
                    pre.chain_g@[q - 1]
                }),
            self.chain_g@.no_duplicates(),
            self.chain_g@.len() == pre.chain_g@.len() + 1,
    {
        let c = self.chain_g@;
        let cp = pre.chain_g@;
        cp.insert_ensures(p, idx);
        assert(!cp.contains(idx));
        assert forall|q: int| 0 <= q < c.len() implies #[trigger] c[q] == (if q < p {
            cp[q]
        } else if q == p {
            idx
        } else {
            cp[q - 1]
        }) by {
            if q > p {
                assert(c[(q - 1) + 1] == cp[q - 1]);
            }
        }
        assert forall|q1: int, q2: int|
            0 <= q1 < c.len() && 0 <= q2 < c.len() && q1 != q2 implies c[q1] != c[q2] by {
            if q1 != p && q2 != p {
                let w1: int = if q1 < p { q1 } else { q1 - 1 };
                let w2: int = if q2 < p { q2 } else { q2 - 1 };
                assert(c[q1] == cp[w1] && c[q2] == cp[w2] && w1 != w2);
            }
        }
        assert(c.no_duplicates());
    }

    /// After the surgery the slots are still partitioned between the chain,
    /// the detached set and the free stack.
    #[verifier::rlimit(60)]
    #[verifier::spinoff_prover]
    proof fn lemma_insert_slots(&self, pre: Self, p: int, idx: usize, key: K, value: V)
        requires
            self.insert_surgery(pre, p, idx, key, value),
        ensures
            forall|q: int| #![trigger self.chain_g@[q]] 0 <= q < self.chain_g@.len() ==>
                self.chain_g@[q] < self.nodes_@.len()
                    && self.nodes_@[self.chain_g@[q] as int] is Live,
            forall|q: int| #![trigger self.detached_g@[q]] 0 <= q < self.detached_g@.len() ==>
                self.detached_g@[q] < self.nodes_@.len()
                    && self.nodes_@[self.detached_g@[q] as int] is Detached,
            forall|q: int| #![trigger self.id_pool_@[q]] 0 <= q < self.id_pool_@.len() ==>
                self.id_pool_@[q] < self.nodes_@.len()
                    && self.nodes_@[self.id_pool_@[q] as int] is Free,
            forall|j: int| #![trigger self.nodes_@[j]] 0 <= j < self.nodes_@.len() ==> {
                &&& (self.nodes_@[j] is Live ==> self.chain_g@.contains(j as usize))
                &&& (self.nodes_@[j] is Detached ==> self.detached_g@.contains(j as usize))
                &&& (self.nodes_@[j] is Free ==> self.id_pool_@.contains(j as usize))
            },
            self.detached_g@.no_duplicates(),
            self.id_pool_@.no_duplicates(),
            self.nodes_@.len() == self.chain_g@.len() + self.detached_g@.len()
                + self.id_pool_@.len(),
    {
        self.lemma_insert_chain(pre, p, idx, key, value);
        let n = self.nodes_@.len() as int;
        let c = self.chain_g@;
        let cp = pre.chain_g@;
        assert forall|q: int| #![trigger c[q]] 0 <= q < c.len()
            implies c[q] < n && self.nodes_@[c[q] as int] is Live by {
            if q != p {
                let w: int = if q < p { q } else { q - 1 };
                assert(c[q] == cp[w]);
            }
        }
        assert forall|q: int| #![trigger self.detached_g@[q]] 0 <= q < self.detached_g@.len()
            implies self.detached_g@[q] < n
                && self.nodes_@[self.detached_g@[q] as int] is Detached by {
            assert(pre.nodes_@[pre.detached_g@[q] as int] is Detached);
        }
        assert forall|q: int| #![trigger self.id_pool_@[q]] 0 <= q < self.id_pool_@.len()
            implies self.id_pool_@[q] < n
                && self.nodes_@[self.id_pool_@[q] as int] is Free by {
            if pre.id_pool_@.len() > 0 {
                assert(self.id_pool_@[q] == pre.id_pool_@[q]);
                assert(pre.id_pool_@[q] != pre.id_pool_@[pre.id_pool_@.len() - 1]);
            }
            assert(pre.nodes_@[self.id_pool_@[q] as int] is Free);
        }
        assert forall|j: int| #![trigger self.nodes_@[j]] 0 <= j < n
            implies {
                &&& (self.nodes_@[j] is Live ==> c.contains(j as usize))
                &&& (self.nodes_@[j] is Detached ==> self.detached_g@.contains(j as usize))
                &&& (self.nodes_@[j] is Free ==> self.id_pool_@.contains(j as usize))
            } by {
            if j == idx {
                assert(c[p] == idx);
                assert(c.contains(idx));
            } else {
                assert(j < pre.nodes_@.len());
                if self.nodes_@[j] is Live {
                    assert(pre.nodes_@[j] is Live);
                    assert(pre.chain_g@.contains(j as usize));
                    let q = choose|q: int|
                        0 <= q < cp.len() && cp[q] == j as usize;
                    let w: int = if q < p { q } else { q + 1 };
                    assert(c[w] == j as usize);
                    assert(c.contains(j as usize));
                }
                if self.nodes_@[j] is Detached {
                    assert(pre.nodes_@[j] is Detached);
                }
                if self.nodes_@[j] is Free {
                    assert(pre.nodes_@[j] is Free);
                    if pre.id_pool_@.len() > 0 {
                        assert(pre.id_pool_@.contains(j as usize));
                        let q = choose|q: int|
                            0 <= q < pre.id_pool_@.len() && pre.id_pool_@[q] == j as usize;
                        assert(q != pre.id_pool_@.len() - 1);
                        assert(self.id_pool_@[q] == j as usize);
                    }
                }
            }
        }
    }

    /// After the surgery every chain node points at its neighbours.
    #[verifier::rlimit(60)]
    #[verifier::spinoff_prover]
    proof fn lemma_insert_links(&self, pre: Self, p: int, idx: usize, key: K, value: V)
        requires
            self.insert_surgery(pre, p, idx, key, value),
        ensures
            forall|q: int| #![trigger self.chain_g@[q]] 0 <= q < self.chain_g@.len() ==>
                self.nodes_@[self.chain_g@[q] as int].node().prev_
                    == (if q == 0 { OUT_OF_BOUNDS } else { self.chain_g@[q - 1] }),
            forall|q: int| #![trigger self.chain_g@[q]] 0 <= q < self.chain_g@.len() ==>
                self.nodes_@[self.chain_g@[q] as int].node().next_
                    == (if q == self.chain_g@.len() - 1 {
                        OUT_OF_BOUNDS
                    } else {
                        self.chain_g@[q + 1]
                    }),
    {
        self.lemma_insert_chain(pre, p, idx, key, value);
        let c = self.chain_g@;
        let cp = pre.chain_g@;
        assert forall|q: int| #![trigger c[q]] 0 <= q < c.len()
            implies self.nodes_@[c[q] as int].node().prev_
                == (if q == 0 { OUT_OF_BOUNDS } else { c[q - 1] }) by {
            if q < p {
                assert(c[q] == cp[q]);
                if q != p - 1 {
                    assert(cp[q] != idx && (p == cp.len() || cp[q] != cp[p]));
                    assert(self.nodes_@[cp[q] as int] == pre.nodes_@[cp[q] as int]);
                }
                if q > 0 {
                    assert(c[q - 1] == cp[q - 1]);
                }
            } else if q == p {
                if q > 0 {
                    assert(c[q - 1] == cp[p - 1]);
                }
            } else {
                assert(c[q] == cp[q - 1]);
                if q - 1 == p {
                    assert(c[q - 1] == idx);
                } else {
                    assert(cp[q - 1] != idx && (p == 0 || cp[q - 1] != cp[p - 1]) && cp[q - 1]
                        != cp[p]);
                    assert(self.nodes_@[cp[q - 1] as int] == pre.nodes_@[cp[q - 1] as int]);
                    assert(c[q - 1] == cp[q - 2]);
                }
            }
        }
        assert forall|q: int| #![trigger c[q]] 0 <= q < c.len()
            implies self.nodes_@[c[q] as int].node().next_
                == (if q == c.len() - 1 { OUT_OF_BOUNDS } else { c[q + 1] }) by {
            if q < p {
                assert(c[q] == cp[q]);
                if q == p - 1 {
                    assert(c[q + 1] == idx);
                } else {
                    assert(cp[q] != idx && (p == cp.len() || cp[q] != cp[p]) && cp[q] != cp[p
                        - 1]);
                    assert(self.nodes_@[cp[q] as int] == pre.nodes_@[cp[q] as int]);
                    assert(c[q + 1] == cp[q + 1]);
                }
            } else if q == p {
                if q < c.len() - 1 {
                    assert(c[q + 1] == cp[p]);
                }
            } else {
                assert(c[q] == cp[q - 1]);
                if q - 1 != p {
                    assert(cp[q - 1] != idx && cp[q - 1] != cp[p] && (p == 0 || cp[q - 1]
                        != cp[p - 1]));
                    assert(self.nodes_@[cp[q - 1] as int] == pre.nodes_@[cp[q - 1] as int]);
                }
                if q < c.len() - 1 {
                    assert(c[q + 1] == cp[q]);
                }
            }
        }
    }

    /// After the surgery the entry sequence is the old one with the new
    /// entry inserted, and every untouched slot kept its state.
    #[verifier::rlimit(60)]
    #[verifier::spinoff_prover]
    proof fn lemma_insert_view(&self, pre: Self, p: int, idx: usize, key: K, value: V)
        requires
            self.insert_surgery(pre, p, idx, key, value),
        ensures
            self@ == pre@.insert(p, (key, value)),
            forall|j: int| 0 <= j < pre.slot_count() && j != idx
                ==> #[trigger] slot_preserved(pre, *self, j),
    {
        self.lemma_insert_chain(pre, p, idx, key, value);
        let c = self.chain_g@;
        let cp = pre.chain_g@;
        pre@.insert_ensures(p, (key, value));
        assert(self@ =~= pre@.insert(p, (key, value))) by {
            assert forall|q: int| 0 <= q < c.len() implies self@[q] == pre@.insert(
                p,
                (key, value),
            )[q] by {
                if q != p {
                    let w: int = if q < p { q } else { q - 1 };
                    assert(c[q] == cp[w]);
                    assert(self.nodes_@[cp[w] as int].node().key_
                        == pre.nodes_@[cp[w] as int].node().key_
                        && self.nodes_@[cp[w] as int].node().value_
                        == pre.nodes_@[cp[w] as int].node().value_);
                    assert(pre@.insert(p, (key, value))[q] == pre@[w]);
                    assert(pre@[w] == pre.entry_at(cp[w] as int));
                }
            }
        }
        assert forall|j: int| 0 <= j < pre.slot_count() && j != idx
            implies #[trigger] slot_preserved(pre, *self, j) by {
            assert(self.nodes_@[j] is Live <==> pre.nodes_@[j] is Live);
            if pre.nodes_@[j] is Live {
                assert(self.nodes_@[j].node().key_ == pre.nodes_@[j].node().key_);
                assert(self.nodes_@[j].node().value_ == pre.nodes_@[j].node().value_);
            }
        }
    }

    /// The state after the pointer surgery of an insert at chain position
    /// `p` is well formed and is exactly the old state with one entry
    /// inserted there.
    #[verifier::rlimit(60)]
    #[verifier::spinoff_prover]
    proof fn lemma_insert_ok(&self, pre: Self, p: int, idx: usize, key: K, value: V)
        requires
            self.insert_surgery(pre, p, idx, key, value),
        ensures
            self.wf(),
            inserted_at(pre, *self, p, idx, key, value),
    {
        self.lemma_insert_chain(pre, p, idx, key, value);
        self.lemma_insert_slots(pre, p, idx, key, value);
        self.lemma_insert_links(pre, p, idx, key, value);
        self.lemma_insert_view(pre, p, idx, key, value);
        assert(self.chain_g@[p] == idx);
        assert(self.wf());
    }

    /// The pointer surgery a removal at chain position `p` performs, as a
    /// relation between the state before (`pre`) and after (`self`): the
    /// neighbours of the removed node point at each other, its slot is free
    /// or detached, the chain lost position `p`, and nothing else changed.
    spec fn remove_surgery(&self, pre: Self, p: int, disconnect: bool) -> bool {
        let cp = pre.chain_g@;
        let idx = cp[p];
        &&& pre.wf()
        &&& 0 <= p < cp.len()
        &&& self.chain_g@ == cp.remove(p)
        &&& self.nodes_@.len() == pre.nodes_@.len()
        &&& self.nodes_@[idx as int] == (if disconnect {
            Slot::<K, V>::Detached
        } else {
            Slot::<K, V>::Free
        })
        &&& (if disconnect {
            self.id_pool_@ == pre.id_pool_@ && self.detached_g@ == pre.detached_g@.push(idx)
        } else {
            self.id_pool_@ == pre.id_pool_@.push(idx) && self.detached_g@ == pre.detached_g@
        })
        &&& p > 0 ==> self.nodes_@[cp[p - 1] as int] == Slot::Live(Node {
            prev_: pre.nodes_@[cp[p - 1] as int].node().prev_,
            next_: if p == cp.len() - 1 { OUT_OF_BOUNDS } else { cp[p + 1] },
            key_: pre.nodes_@[cp[p - 1] as int].node().key_,
            value_: pre.nodes_@[cp[p - 1] as int].node().value_,
        })
        &&& p < cp.len() - 1 ==> self.nodes_@[cp[p + 1] as int] == Slot::Live(Node {
            prev_: if p == 0 { OUT_OF_BOUNDS } else { cp[p - 1] },
            next_: pre.nodes_@[cp[p + 1] as int].node().next_,
            key_: pre.nodes_@[cp[p + 1] as int].node().key_,
            value_: pre.nodes_@[cp[p + 1] as int].node().value_,
        })
        &&& (forall|j: int| #![trigger self.nodes_@[j]] 0 <= j < pre.nodes_@.len() && j != idx
            && (p == 0 || j != cp[p - 1])
            && (p == cp.len() - 1 || j != cp[p + 1])
            ==> self.nodes_@[j] == pre.nodes_@[j])
        &&& self.head_ == (if p == 0 {
            if cp.len() == 1 { OUT_OF_BOUNDS } else { cp[1] }
        } else {
            pre.head_
        })
        &&& self.tail_ == (if p == cp.len() - 1 {
            if cp.len() == 1 { OUT_OF_BOUNDS } else { cp[p - 1] }
        } else {
            pre.tail_
        })
    }

    /// After the surgery the chain is the old chain with position `p` taken
    /// out: how its positions map to the old ones, and that it stays
    /// duplicate free and avoids the removed slot.
    #[verifier::spinoff_prover]
    proof fn lemma_remove_chain(&self, pre: Self, p: int, disconnect: bool)
        requires
            self.remove_surgery(pre, p, disconnect),
        ensures
            forall|q: int| 0 <= q < self.chain_g@.len() ==> #[trigger] self.chain_g@[q]
                == (if q < p {
                    pre.chain_g@[q]
                } else {
                    pre.chain_g@[q + 1]
                }),
            self.chain_g@.no_duplicates(),
            self.chain_g@.len() == pre.chain_g@.len() - 1,
            !self.chain_g@.contains(pre.chain_g@[p]),
    {
        let c = self.chain_g@;
        let cp = pre.chain_g@;
        cp.remove_ensures(p);
        assert forall|q: int| 0 <= q < c.len() implies #[trigger] c[q] == (if q < p {
            cp[q]
        } else {
            cp[q + 1]
        }) by {
        }
        assert forall|q1: int, q2: int|
            0 <= q1 < c.len() && 0 <= q2 < c.len() && q1 != q2 implies c[q1] != c[q2] by {
            let w1: int = if q1 < p { q1 } else { q1 + 1 };
            let w2: int = if q2 < p { q2 } else { q2 + 1 };
            assert(c[q1] == cp[w1] && c[q2] == cp[w2] && w1 != w2);
        }
        assert(c.no_duplicates());
        assert forall|q: int| 0 <= q < c.len() implies c[q] != cp[p] by {
            let w: int = if q < p { q } else { q + 1 };
            assert(c[q] == cp[w] && w != p);
        }
    }

    /// After the surgery the slots are still partitioned between the chain,
    /// the detached set and the free stack.
    #[verifier::rlimit(60)]
    #[verifier::spinoff_prover]
    proof fn lemma_remove_slots(&self, pre: Self, p: int, disconnect: bool)
        requires
            self.remove_surgery(pre, p, disconnect),
        ensures
            forall|q: int| #![trigger self.chain_g@[q]] 0 <= q < self.chain_g@.len() ==>
                self.chain_g@[q] < self.nodes_@.len()
                    && self.nodes_@[self.chain_g@[q] as int] is Live,
            forall|q: int| #![trigger self.detached_g@[q]] 0 <= q < self.detached_g@.len() ==>
                self.detached_g@[q] < self.nodes_@.len()
                    && self.nodes_@[self.detached_g@[q] as int] is Detached,
            forall|q: int| #![trigger self.id_pool_@[q]] 0 <= q < self.id_pool_@.len() ==>
                self.id_pool_@[q] < self.nodes_@.len()
                    && self.nodes_@[self.id_pool_@[q] as int] is Free,
            forall|j: int| #![trigger self.nodes_@[j]] 0 <= j < self.nodes_@.len() ==> {
                &&& (self.nodes_@[j] is Live ==> self.chain_g@.contains(j as usize))
                &&& (self.nodes_@[j] is Detached ==> self.detached_g@.contains(j as usize))
                &&& (self.nodes_@[j] is Free ==> self.id_pool_@.contains(j as usize))
            },
            self.detached_g@.no_duplicates(),
            self.id_pool_@.no_duplicates(),
            self.nodes_@.len() == self.chain_g@.len() + self.detached_g@.len()
                + self.id_pool_@.len(),
    {
        self.lemma_remove_chain(pre, p, disconnect);
        let n = self.nodes_@.len() as int;
        let c = self.chain_g@;
        let cp = pre.chain_g@;
        let idx = cp[p];
        assert(pre.nodes_@[idx as int] is Live);
        assert(!pre.detached_g@.contains(idx));
        assert(!pre.id_pool_@.contains(idx));
        assert forall|q: int| #![trigger c[q]] 0 <= q < c.len()
            implies c[q] < n && self.nodes_@[c[q] as int] is Live by {
            let w: int = if q < p { q } else { q + 1 };
            assert(c[q] == cp[w]);
        }
        assert forall|q: int| #![trigger self.detached_g@[q]] 0 <= q < self.detached_g@.len()
            implies self.detached_g@[q] < n
                && self.nodes_@[self.detached_g@[q] as int] is Detached by {
            if q < pre.detached_g@.len() {
                assert(self.detached_g@[q] == pre.detached_g@[q]);
                assert(pre.nodes_@[pre.detached_g@[q] as int] is Detached);
                assert(pre.detached_g@[q] != idx);
            } else {
                assert(disconnect && self.detached_g@[q] == idx);
            }
        }
        assert forall|q: int| #![trigger self.id_pool_@[q]] 0 <= q < self.id_pool_@.len()
            implies self.id_pool_@[q] < n
                && self.nodes_@[self.id_pool_@[q] as int] is Free by {
            if q < pre.id_pool_@.len() {
                assert(self.id_pool_@[q] == pre.id_pool_@[q]);
                assert(pre.nodes_@[pre.id_pool_@[q] as int] is Free);
                assert(pre.id_pool_@[q] != idx);
            } else {
                assert(!disconnect && self.id_pool_@[q] == idx);
            }
        }
        assert(self.detached_g@.no_duplicates());
        assert(self.id_pool_@.no_duplicates());
        assert forall|j: int| #![trigger self.nodes_@[j]] 0 <= j < n
            implies {
                &&& (self.nodes_@[j] is Live ==> c.contains(j as usize))
                &&& (self.nodes_@[j] is Detached ==> self.detached_g@.contains(j as usize))
                &&& (self.nodes_@[j] is Free ==> self.id_pool_@.contains(j as usize))
            } by {
            if j == idx {
                if disconnect {
                    assert(self.detached_g@[self.detached_g@.len() - 1] == idx);
                    assert(self.detached_g@.contains(idx));
                } else {
                    assert(self.id_pool_@[self.id_pool_@.len() - 1] == idx);
                    assert(self.id_pool_@.contains(idx));
                }
            } else {
                if self.nodes_@[j] is Live {
                    assert(pre.nodes_@[j] is Live);
                    assert(pre.chain_g@.contains(j as usize));
                    let q = choose|q: int| 0 <= q < cp.len() && cp[q] == j as usize;
                    assert(q != p);
                    let w: int = if q < p { q } else { q - 1 };
                    assert(c[w] == j as usize);
                    assert(c.contains(j as usize));
                }
                if self.nodes_@[j] is Detached {
                    assert(pre.nodes_@[j] is Detached);
                    assert(pre.detached_g@.contains(j as usize));
                    let q = choose|q: int|
                        0 <= q < pre.detached_g@.len() && pre.detached_g@[q] == j as usize;
                    assert(self.detached_g@[q] == j as usize);
                }
                if self.nodes_@[j] is Free {
                    assert(pre.nodes_@[j] is Free);
                    assert(pre.id_pool_@.contains(j as usize));
                    let q = choose|q: int|
                        0 <= q < pre.id_pool_@.len() && pre.id_pool_@[q] == j as usize;
                    assert(self.id_pool_@[q] == j as usize);
                }
            }
        }
    }

    /// After the surgery every remaining chain node points at its
    /// neighbours.
    #[verifier::rlimit(60)]
    #[verifier::spinoff_prover]
    proof fn lemma_remove_links(&self, pre: Self, p: int, disconnect: bool)
        requires
            self.remove_surgery(pre, p, disconnect),
        ensures
            forall|q: int| #![trigger self.chain_g@[q]] 0 <= q < self.chain_g@.len() ==>
                self.nodes_@[self.chain_g@[q] as int].node().prev_
                    == (if q == 0 { OUT_OF_BOUNDS } else { self.chain_g@[q - 1] }),
            forall|q: int| #![trigger self.chain_g@[q]] 0 <= q < self.chain_g@.len() ==>
                self.nodes_@[self.chain_g@[q] as int].node().next_
                    == (if q == self.chain_g@.len() - 1 {
                        OUT_OF_BOUNDS
                    } else {
                        self.chain_g@[q + 1]
                    }),
    {
        self.lemma_remove_chain(pre, p, disconnect);
        let c = self.chain_g@;
        let cp = pre.chain_g@;
        let idx = cp[p];
        assert forall|q: int| #![trigger c[q]] 0 <= q < c.len()
            implies self.nodes_@[c[q] as int].node().prev_
                == (if q == 0 { OUT_OF_BOUNDS } else { c[q - 1] }) by {
            if q < p {
                assert(c[q] == cp[q]);
                if q != p - 1 {
                    assert(cp[q] != idx && (p == cp.len() - 1 || cp[q] != cp[p + 1]));
                    assert(self.nodes_@[cp[q] as int] == pre.nodes_@[cp[q] as int]);
                }
                if q > 0 {
                    assert(c[q - 1] == cp[q - 1]);
                }
            } else {
                assert(c[q] == cp[q + 1]);
                if q == p {
                    if q > 0 {
                        assert(c[q - 1] == cp[p - 1]);
                    }
                } else {
                    assert(cp[q + 1] != idx && (p == 0 || cp[q + 1] != cp[p - 1]) && cp[q + 1]
                        != cp[p + 1]);
                    assert(self.nodes_@[cp[q + 1] as int] == pre.nodes_@[cp[q + 1] as int]);
                    assert(c[q - 1] == cp[q]);
                }
            }
        }
        assert forall|q: int| #![trigger c[q]] 0 <= q < c.len()
            implies self.nodes_@[c[q] as int].node().next_
                == (if q == c.len() - 1 { OUT_OF_BOUNDS } else { c[q + 1] }) by {
            if q < p {
                assert(c[q] == cp[q]);
                if q == p - 1 {
                    if q < c.len() - 1 {
                        assert(c[q + 1] == cp[p + 1]);
                    }
                } else {
                    assert(cp[q] != idx && (p == cp.len() - 1 || cp[q] != cp[p + 1]) && (p == 0
                        || cp[q] != cp[p - 1]));
                    assert(self.nodes_@[cp[q] as int] == pre.nodes_@[cp[q] as int]);
                    assert(c[q + 1] == cp[q + 1]);
                }
            } else {
                assert(c[q] == cp[q + 1]);
                if q == p {
                    if q < c.len() - 1 {
                        assert(c[q + 1] == cp[q + 2]);
                    }
                } else {
                    assert(cp[q + 1] != idx && cp[q + 1] != cp[p + 1] && (p == 0 || cp[q + 1]
                        != cp[p - 1]));
                    assert(self.nodes_@[cp[q + 1] as int] == pre.nodes_@[cp[q + 1] as int]);
                    if q < c.len() - 1 {
                        assert(c[q + 1] == cp[q + 2]);
                    }
                }
            }
        }
    }

    /// After the surgery the entry sequence is the old one with position `p`
    /// removed, and every untouched slot kept its state.
    #[verifier::rlimit(60)]
    #[verifier::spinoff_prover]
    proof fn lemma_remove_view(&self, pre: Self, p: int, disconnect: bool)
        requires
            self.remove_surgery(pre, p, disconnect),
        ensures
            self@ == pre@.remove(p),
            forall|j: int| 0 <= j < pre.slot_count() && j != pre.chain_g@[p]
                ==> #[trigger] slot_preserved(pre, *self, j),
    {
        self.lemma_remove_chain(pre, p, disconnect);
        let c = self.chain_g@;
        let cp = pre.chain_g@;
        let idx = cp[p];
        pre@.remove_ensures(p);
        assert(self@ =~= pre@.remove(p)) by {
            assert forall|q: int| 0 <= q < c.len() implies self@[q] == pre@.remove(p)[q] by {
                let w: int = if q < p { q } else { q + 1 };
                assert(c[q] == cp[w]);
                assert(self.nodes_@[cp[w] as int].node().key_
                    == pre.nodes_@[cp[w] as int].node().key_
                    && self.nodes_@[cp[w] as int].node().value_
                    == pre.nodes_@[cp[w] as int].node().value_);
                assert(pre@.remove(p)[q] == pre@[w]);
                assert(pre@[w] == pre.entry_at(cp[w] as int));
            }
        }
        assert forall|j: int| 0 <= j < pre.slot_count() && j != idx
            implies #[trigger] slot_preserved(pre, *self, j) by {
            assert(self.nodes_@[j] is Live <==> pre.nodes_@[j] is Live);
            if pre.nodes_@[j] is Live {
                assert(self.nodes_@[j].node().key_ == pre.nodes_@[j].node().key_);
                assert(self.nodes_@[j].node().value_ == pre.nodes_@[j].node().value_);
            }
        }
    }

    /// The state after the pointer surgery of a removal at chain position
    /// `p` is well formed and is exactly the old state with that entry taken
    /// out.
    #[verifier::rlimit(60)]
    #[verifier::spinoff_prover]
    proof fn lemma_remove_ok(&self, pre: Self, p: int, disconnect: bool)
        requires
            self.remove_surgery(pre, p, disconnect),
        ensures
            self.wf(),
            removed_at(pre, *self, p, disconnect),
    {
        self.lemma_remove_chain(pre, p, disconnect);
        self.lemma_remove_slots(pre, p, disconnect);
        self.lemma_remove_links(pre, p, disconnect);
        self.lemma_remove_view(pre, p, disconnect);
        assert(self.wf());
    }

    /// do the actual erase now that we know how to do it (work around for
    /// the borrow checker). The operation must describe the neighbours of
    /// the chain node at ghost position `p`.
    fn erase_node_(
        &mut self,
        operation: EraseOperation,
        disconnect_only: bool,
        p: Ghost<int>,
    ) -> (r: Result<(usize, (K, V), usize), MapError>)
        requires
            old(self).wf(),
            0 <= p@ < old(self).chain_g@.len(),
            operation.erase_ == old(self).chain_g@[p@],
            operation.change_prev_ == (if p@ > 0 {
                Some((
                    old(self).chain_g@[p@ - 1],
                    if p@ == old(self).chain_g@.len() - 1 {
                        OUT_OF_BOUNDS
                    } else {
                        old(self).chain_g@[p@ + 1]
                    },
                ))
            } else {
                None::<(usize, usize)>
            }),
            operation.change_next_ == (if p@ < old(self).chain_g@.len() - 1 {
                Some((
                    old(self).chain_g@[p@ + 1],
                    if p@ == 0 { OUT_OF_BOUNDS } else { old(self).chain_g@[p@ - 1] },
                ))
            } else {
                None::<(usize, usize)>
            }),
        ensures
            final(self).wf(),
            r is Ok,
            ({
                let t = r.unwrap();
                let cp = old(self).chain_g@;
                &&& removed_at(*old(self), *final(self), p@, disconnect_only)
                &&& t.1 == old(self)@[p@]
                &&& t.0 == (if p@ == 0 { OUT_OF_BOUNDS } else { cp[p@ - 1] })
                &&& t.2 == (if p@ == cp.len() - 1 { OUT_OF_BOUNDS } else { cp[p@ + 1] })
            }),
    {
        let ghost pre = *old(self);
        let ghost cp = pre.chain_g@;
        match (operation.change_prev_, operation.change_next_) {
            (Some((prev_i, new_next)), Some((next_i, new_prev))) => {
                proof {
                    assert(prev_i == cp[p@ - 1] && prev_i < self.nodes_@.len());
                    assert(self.nodes_@[prev_i as int] is Live);
                }
                match &mut self.nodes_[prev_i] {
                    Slot::Live(node) => {
                        node.next_ = new_next;
                    },
                    _ => {
                        proof {
                            assert(false);
                        }
                        return Err(MapError::InvariantViolation);
                    },
                }
                proof {
                    assert(next_i == cp[p@ + 1] && next_i < self.nodes_@.len());
                    assert(next_i != prev_i);
                    assert(self.nodes_@[next_i as int] is Live);
                }
                match &mut self.nodes_[next_i] {
                    Slot::Live(node) => {
                        node.prev_ = new_prev;
                    },
                    _ => {
                        proof {
                            assert(false);
                        }
                        return Err(MapError::InvariantViolation);
                    },
                }
            },
            (None, Some((new_head, new_head_prev))) => {
                proof {
                    assert(new_head == cp[1] && new_head < self.nodes_@.len());
                    assert(self.nodes_@[new_head as int] is Live);
                }
                match &mut self.nodes_[new_head] {
                    Slot::Live(node) => {
                        node.prev_ = new_head_prev;
                    },
                    _ => {
                        proof {
                            assert(false);
                        }
                        return Err(MapError::InvariantViolation);
                    },
                }
                self.head_ = new_head;
            },
            (Some((new_tail, new_tail_next)), None) => {
                proof {
                    assert(new_tail == cp[p@ - 1] && new_tail < self.nodes_@.len());
                    assert(self.nodes_@[new_tail as int] is Live);
                }
                match &mut self.nodes_[new_tail] {
                    Slot::Live(node) => {
                        node.next_ = new_tail_next;
                    },
                    _ => {
                        proof {
                            assert(false);
                        }
                        return Err(MapError::InvariantViolation);
                    },
                }
                self.tail_ = new_tail;
            },
            (None, None) => {
                self.head_ = OUT_OF_BOUNDS;
                self.tail_ = OUT_OF_BOUNDS;
            },
        }
        // Take the node out of its slot, leaving it free or detached.
        let erase_i = operation.erase_;
        proof {
            assert(erase_i == cp[p@] && erase_i < self.nodes_@.len());
            assert((p@ == 0 || erase_i != cp[p@ - 1]) && (p@ == cp.len() - 1 || erase_i != cp[p@
                + 1]));
            assert(self.nodes_@[erase_i as int] == pre.nodes_@[erase_i as int]);
            assert(self.nodes_@[erase_i as int] is Live);
        }
        let mut taken: Slot<K, V> = if disconnect_only {
            Slot::Detached
        } else {
            Slot::Free
        };
        core::mem::swap(&mut taken, &mut self.nodes_[erase_i]);
        match taken {
            Slot::Live(old_node) => {
                if !disconnect_only {
                    self.id_pool_.push(erase_i);
                }
                self.chain_g = Ghost(cp.remove(p@));
                if disconnect_only {
                    self.detached_g = Ghost(pre.detached_g@.push(erase_i));
                }
                proof {
                    self.lemma_remove_ok(pre, p@, disconnect_only);
                }
                Ok((old_node.prev_, (old_node.key_, old_node.value_), old_node.next_))
            },
            _ => {
                proof {
                    assert(false);
                }
                Err(MapError::InvariantViolation)
            },
        }
    }

    /// Disconnect and remove the item at `index`, returning its former
    /// neighbour indices along with the entry.
    fn remove__(&mut self, index: usize, disconnect_only: bool) -> (r: Result<
        (usize, (K, V), usize),
        MapError,
    >)
        requires
            old(self).wf(),
        ensures
            final(self).wf(),
            match r {
                Ok(t) => ({
                    let p = old(self).pos_of(index);
                    let cp = old(self).chain();
                    &&& old(self).live_at(index as int)
                    &&& removed_at(*old(self), *final(self), p, disconnect_only)
                    &&& t.1 == old(self)@[p]
                    &&& t.0 == (if p == 0 { OUT_OF_BOUNDS } else { cp[p - 1] })
                    &&& t.2 == (if p == cp.len() - 1 { OUT_OF_BOUNDS } else { cp[p + 1] })
                }),
                Err(MapError::InvariantViolation) => old(self)@.len() == 0 && *final(self)
                    == *old(self),
                Err(MapError::NotFound) => old(self)@.len() > 0
                    && index >= old(self).slot_count() && *final(self) == *old(self),
                Err(MapError::Tombstoned) => old(self)@.len() > 0
                    && index < old(self).slot_count() && !old(self).live_at(index as int)
                    && *final(self) == *old(self),
                Err(MapError::BorrowConflict) => false,
            },
            r is Ok <==> (old(self)@.len() > 0 && old(self).live_at(index as int)),
    {
        if self.head_ == OUT_OF_BOUNDS {
            // list was empty: there is nothing to remove
            return Err(MapError::InvariantViolation);
        }
        if index >= self.nodes_.len() {
            return Err(MapError::NotFound);
        }
        let node_prev: usize;
        let node_next: usize;
        match &self.nodes_[index] {
            Slot::Live(node) => {
                node_prev = node.prev_;
                node_next = node.next_;
            },
            _ => {
                return Err(MapError::Tombstoned);
            },
        }
        let ghost pre = *old(self);
        proof {
            pre.lemma_pos_of(index);
        }
        let ghost p = pre.pos_of(index);
        let mut operation = EraseOperation {
            change_prev_: None,
            erase_: index,
            change_next_: None,
        };
        // Check node next
        if node_next != OUT_OF_BOUNDS {
            proof {
                assert(p < pre.chain_g@.len() - 1 && node_next == pre.chain_g@[p + 1]);
            }
            operation.change_next_ = Some((node_next, node_prev));
        }
        // Check prev node
        if node_prev != OUT_OF_BOUNDS {
            proof {
                assert(p > 0 && node_prev == pre.chain_g@[p - 1]);
            }
            operation.change_prev_ = Some((node_prev, node_next));
        }
        self.erase_node_(operation, disconnect_only, Ghost(p))
    }

    /// Remove the item at `index` (full erase: the slot goes back to the
    /// free stack), returning its entry.
    pub fn remove_(&mut self, index: usize) -> (r: Result<Option<(K, V)>, MapError>)
        requires
            old(self).wf(),
        ensures
            final(self).wf(),
            match r {
                Ok(v) => ({
                    let p = old(self).pos_of(index);
                    &&& old(self).live_at(index as int)
                    &&& v == Some(old(self)@[p])
                    &&& removed_at(*old(self), *final(self), p, false)
                }),
                Err(MapError::InvariantViolation) => old(self)@.len() == 0 && *final(self)
                    == *old(self),
                Err(MapError::NotFound) => old(self)@.len() > 0
                    && index >= old(self).slot_count() && *final(self) == *old(self),
                Err(MapError::Tombstoned) => old(self)@.len() > 0
                    && index < old(self).slot_count() && !old(self).live_at(index as int)
                    && *final(self) == *old(self),
                Err(MapError::BorrowConflict) => false,
            },
            r is Ok <==> (old(self)@.len() > 0 && old(self).live_at(index as int)),
    {
        match self.remove__(index, false) {
            Ok(t) => Ok(Some(t.1)),
            Err(e) => Err(e),
        }
    }

    /// Pop the head item; fails when the list chain is empty.
    pub fn pop_front(&mut self) -> (r: Result<Option<(K, V)>, MapError>)
        requires
            old(self).wf(),
        ensures
            final(self).wf(),
            match r {
                Ok(v) => old(self)@.len() > 0 && v == Some(old(self)@[0])
                    && removed_at(*old(self), *final(self), 0, false),
                Err(e) => e == MapError::InvariantViolation && old(self)@.len() == 0
                    && *final(self) == *old(self),
            },
            r is Ok <==> old(self)@.len() > 0,
    {
        let h = self.head_;
        proof {
            if old(self)@.len() > 0 {
                old(self).lemma_pos_of(h);
            }
        }
        self.remove_(h)
    }

    /// Pop the tail item; fails when the list chain is empty.
    pub fn pop_back(&mut self) -> (r: Result<Option<(K, V)>, MapError>)
        requires
            old(self).wf(),
        ensures
            final(self).wf(),
            match r {
                Ok(v) => old(self)@.len() > 0 && v == Some(old(self)@[old(self)@.len() - 1])
                    && removed_at(*old(self), *final(self), old(self)@.len() - 1, false),
                Err(e) => e == MapError::InvariantViolation && old(self)@.len() == 0
                    && *final(self) == *old(self),
            },
            r is Ok <==> old(self)@.len() > 0,
    {
        let t = self.tail_;
        proof {
            if old(self)@.len() > 0 {
                old(self).lemma_pos_of(t);
            }
        }
        self.remove_(t)
    }

}

/// What the forward scan skipped and where it stopped: every key it walked
/// past is strictly below the new one, and it stopped at a comparison-equal
/// key, at a strictly greater key, or at the end.
proof fn lemma_fwd_plan_props<K: TotalOrdered, V>(s: Seq<(K, V)>, i: int, key: K)
    requires
        0 <= i <= s.len(),
    ensures
        match fwd_plan(s, i, key) {
            InsertPlan::Existing(e) => i <= e < s.len() && eq_k(key, s[e].0) && (forall|q: int|
                i <= q < e ==> lt_k(#[trigger] s[q].0, key)),
            InsertPlan::Before(b) => i <= b < s.len() && lt_k(key, s[b].0) && (forall|q: int|
                i <= q < b ==> lt_k(#[trigger] s[q].0, key)),
            InsertPlan::Append => forall|q: int|
                i <= q < s.len() ==> lt_k(#[trigger] s[q].0, key),
        },
    decreases s.len() - i,
{
    if i < s.len() {
        if !eq_k(key, s[i].0) && !lt_k(key, s[i].0) {
            K::total(key, s[i].0);
            assert(lt_k(s[i].0, key));
            lemma_fwd_plan_props(s, i + 1, key);
        }
    }
}

/// Where the backward scan stopped: at a comparison-equal key, or in front
/// of a position whose key is strictly above the new one while the key just
/// before it (if any) is strictly below.
proof fn lemma_bwd_plan_props<K: TotalOrdered, V>(s: Seq<(K, V)>, i: int, best: int, key: K)
    requires
        -1 <= i < s.len(),
        0 <= best < s.len(),
        i <= best <= i + 1,
        lt_k(key, s[best].0),
    ensures
        match bwd_plan(s, i, best, key) {
            InsertPlan::Existing(e) => 0 <= e <= i && eq_k(key, s[e].0),
            InsertPlan::Before(b) => 0 <= b < s.len() && lt_k(key, s[b].0) && (b == 0 || lt_k(
                s[b - 1].0,
                key,
            )),
            InsertPlan::Append => false,
        },
    decreases i + 1,
{
    if i >= 0 {
        if eq_k(key, s[i].0) {
        } else if lt_k(key, s[i].0) {
            lemma_bwd_plan_props(s, i - 1, i, key);
        } else {
            K::total(key, s[i].0);
            assert(best == i + 1);
            assert(lt_k(s[i].0, key));
        }
    }
}

/// On a sorted entry sequence an ordered insert lands where it keeps the
/// sequence sorted (or is a no-op on a comparison-equal key).
proof fn lemma_plan_sorted<K: TotalOrdered, V>(s: Seq<(K, V)>, hpos: int, key: K, value: V)
    requires
        entries_sorted(s),
        s.len() > 0 ==> 0 <= hpos < s.len(),
    ensures
        match insert_plan(s, hpos, key) {
            InsertPlan::Existing(e) => 0 <= e < s.len() && eq_k(key, s[e].0),
            InsertPlan::Before(b) => 0 <= b <= s.len() && entries_sorted(
                s.insert(b, (key, value)),
            ),
            InsertPlan::Append => entries_sorted(s.insert(s.len() as int, (key, value))),
        },
{
    if s.len() == 0 {
        s.insert_ensures(0, (key, value));
        assert(entries_sorted(s.insert(0, (key, value))));
    } else if !lt_k(key, s[hpos].0) {
        K::total(key, s[hpos].0);
        assert(s[hpos].0.le(key));
        lemma_fwd_plan_props(s, hpos, key);
        match fwd_plan(s, hpos, key) {
            InsertPlan::Existing(e) => {
            },
            InsertPlan::Before(b) => {
                s.insert_ensures(b, (key, value));
                let t = s.insert(b, (key, value));
                assert forall|p: int, q: int| 0 <= p < q < t.len() implies (#[trigger] t[p].0).le(
                    #[trigger] t[q].0,
                ) by {
                    if p == b && q > b {
                        assert(t[q] == s[q - 1]);
                        lemma_le_chain_up(s, b, q - 1, key);
                    } else if q == b && p < b {
                        assert(t[p] == s[p]);
                        lemma_le_chain_down(s, p, b, key, hpos);
                    } else {
                        let wp: int = if p < b { p } else { p - 1 };
                        let wq: int = if q < b { q } else { q - 1 };
                        assert(t[p] == s[wp] && t[q] == s[wq] && wp < wq);
                    }
                }
            },
            InsertPlan::Append => {
                s.insert_ensures(s.len() as int, (key, value));
                let t = s.insert(s.len() as int, (key, value));
                assert forall|p: int, q: int| 0 <= p < q < t.len() implies (#[trigger] t[p].0).le(
                    #[trigger] t[q].0,
                ) by {
                    if q == s.len() {
                        assert(t[p] == s[p]);
                        lemma_le_chain_down(s, p, s.len() as int, key, hpos);
                    } else {
                        assert(t[p] == s[p] && t[q] == s[q]);
                    }
                }
            },
        }
    } else {
        lemma_bwd_plan_props(s, hpos, hpos, key);
        match bwd_plan(s, hpos, hpos, key) {
            InsertPlan::Existing(e) => {
            },
            InsertPlan::Before(b) => {
                s.insert_ensures(b, (key, value));
                let t = s.insert(b, (key, value));
                assert forall|p: int, q: int| 0 <= p < q < t.len() implies (#[trigger] t[p].0).le(
                    #[trigger] t[q].0,
                ) by {
                    if p == b && q > b {
                        assert(t[q] == s[q - 1]);
                        lemma_le_chain_up(s, b, q - 1, key);
                    } else if q == b && p < b {
                        assert(t[p] == s[p]);
                        assert(lt_k(s[b - 1].0, key));
                        if p < b - 1 {
                            K::transitive(s[p].0, s[b - 1].0, key);
                        }
                    } else {
                        let wp: int = if p < b { p } else { p - 1 };
                        let wq: int = if q < b { q } else { q - 1 };
                        assert(t[p] == s[wp] && t[q] == s[wq] && wp < wq);
                    }
                }
            },
            InsertPlan::Append => {
                assert(false);
            },
        }
    }
}

/// In a sorted sequence, a key at or above `s[b]` is at or above every
/// later entry's... inverse: `key.le(s[j].0)` holds for every `j` at or
/// after a position `b` whose key is above `key`.
proof fn lemma_le_chain_up<K: TotalOrdered, V>(s: Seq<(K, V)>, b: int, j: int, key: K)
    requires
        entries_sorted(s),
        0 <= b <= j < s.len(),
        lt_k(key, s[b].0),
    ensures
        key.le(s[j].0),
{
    if j > b {
        K::transitive(key, s[b].0, s[j].0);
    }
}

/// `s[p].0.le(key)` for every position `p` below a forward-scan stop, going
/// through the anchor `hpos` whose key is at or below `key`.
proof fn lemma_le_chain_down<K: TotalOrdered, V>(s: Seq<(K, V)>, p: int, b: int, key: K, hpos: int)
    requires
        entries_sorted(s),
        0 <= p < b <= s.len(),
        0 <= hpos < s.len(),
        hpos <= b,
        s[hpos].0.le(key),
        forall|q: int| hpos <= q < b ==> lt_k(#[trigger] s[q].0, key),
    ensures
        s[p].0.le(key),
{
    if p < hpos {
        K::transitive(s[p].0, s[hpos].0, key);
    } else {
        assert(lt_k(s[p].0, key));
    }
}

impl<K: TotalOrdered, V> LinkedList<K, V> {
    /// The entries are sorted by key from head to tail.
    pub open spec fn sorted(&self) -> bool {
        entries_sorted(self@)
    }

    /// The chain position an ordered insert anchors its scan at: the hint's
    /// position when the hint addresses a live slot, else the head.
    pub open spec fn hint_pos(&self, position: usize) -> int {
        if self.live_at(position as int) {
            self.pos_of(position)
        } else {
            0
        }
    }

    /// Insert item at position defined by Order (lesser first).
    /// This is the same as `ordered_insert_pos` with the head as position
    /// hint.
    ///
    /// Note that an ordered insert is a no-op if the key already exists: not
    /// even the new value will be used.
    pub fn ordered_insert(&mut self, key: K, value: V) -> (r: Result<usize, MapError>)
        requires
            old(self).wf(),
            old(self).slot_count() + 1 < OUT_OF_BOUNDS,
        ensures
            final(self).wf(),
            r is Ok,
            (match insert_plan(old(self)@, 0, key) {
                InsertPlan::Existing(p) => r == Ok::<usize, MapError>(old(self).chain()[p])
                    && *final(self) == *old(self),
                InsertPlan::Before(p) => inserted_at(
                    *old(self),
                    *final(self),
                    p,
                    r.unwrap(),
                    key,
                    value,
                ),
                InsertPlan::Append => inserted_at(
                    *old(self),
                    *final(self),
                    old(self)@.len() as int,
                    r.unwrap(),
                    key,
                    value,
                ),
            }),
            old(self).sorted() ==> final(self).sorted(),
    {
        let h = self.head_;
        proof {
            if old(self)@.len() > 0 {
                old(self).lemma_pos_of(old(self).chain_g@[0]);
            }
        }
        self.ordered_insert_pos(key, value, h)
    }

    /// Insert item by Order (lesser first) with a position hint: the scan
    /// for the insertion point starts at the hint (the head when the hint is
    /// stale) instead of at an absolute end.
    ///
    /// Note that an ordered insert is a no-op if the key already exists: not
    /// even the new value will be used.
    pub fn ordered_insert_pos(&mut self, key: K, value: V, position: usize) -> (r: Result<
        usize,
        MapError,
    >)
        requires
            old(self).wf(),
            old(self).slot_count() + 1 < OUT_OF_BOUNDS,
        ensures
            final(self).wf(),
            r is Ok,
            (match insert_plan(old(self)@, old(self).hint_pos(position), key) {
                InsertPlan::Existing(p) => r == Ok::<usize, MapError>(old(self).chain()[p])
                    && *final(self) == *old(self),
                InsertPlan::Before(p) => inserted_at(
                    *old(self),
                    *final(self),
                    p,
                    r.unwrap(),
                    key,
                    value,
                ),
                InsertPlan::Append => inserted_at(
                    *old(self),
                    *final(self),
                    old(self)@.len() as int,
                    r.unwrap(),
                    key,
                    value,
                ),
            }),
            old(self).sorted() ==> final(self).sorted(),
    {
        let ghost pre = *old(self);
        let ghost s = pre@;
        let ghost hpos = pre.hint_pos(position);
        let ghost plan = insert_plan(s, hpos, key);
        if self.head_ == OUT_OF_BOUNDS {
            // list is empty, ignore position and insert
            proof {
                assert(s.len() == 0);
                lemma_plan_sorted(s, hpos, key, value);
            }
            return self.push_back_(key, value);
        }
        // resolve the hint, falling back to the head when it is stale
        let mut curr_index: usize;
        if position < self.nodes_.len() {
            match &self.nodes_[position] {
                Slot::Live(_) => {
                    curr_index = position;
                },
                _ => {
                    curr_index = self.head_;
                },
            }
        } else {
            curr_index = self.head_;
        }
        proof {
            if pre.live_at(position as int) {
                pre.lemma_pos_of(position);
            }
            assert(0 <= hpos < s.len() && curr_index == pre.chain_g@[hpos]);
        }
        // compare against the anchor to pick the scan direction
        let anchor_is_less: bool;
        match &self.nodes_[curr_index] {
            Slot::Live(first_node) => {
                anchor_is_less = matches!(key.compare(&first_node.key_), Cmp::Less);
            },
            _ => {
                proof {
                    assert(false);
                }
                return Err(MapError::InvariantViolation);
            },
        }
        let mut insert_before: Option<usize> = None;
        let ghost mut planned_pos: int = 0;
        if !anchor_is_less {
            // we are searching down the list, stop at the first greater key
            let ghost mut i: int = hpos;
            while curr_index != OUT_OF_BOUNDS && insert_before.is_none()
                invariant
                    *self == pre,
                    pre == *old(self),
                    pre.wf(),
                    s == pre@,
                    hpos == pre.hint_pos(position),
                    plan == insert_plan(s, hpos, key),
                    0 <= hpos < s.len(),
                    !lt_k(key, s[hpos].0),
                    hpos <= i <= s.len(),
                    i < s.len() ==> curr_index == pre.chain_g@[i],
                    i == s.len() ==> curr_index == OUT_OF_BOUNDS,
                    match insert_before {
                        Option::None => fwd_plan(s, i, key) == plan,
                        Option::Some(ib) => plan == InsertPlan::Before(planned_pos)
                            && 0 <= planned_pos < s.len() && ib == pre.chain_g@[planned_pos],
                    },
                decreases 2 * (s.len() - i) + (if insert_before is Some { 0int } else { 1int }),
            {
                let sample_next: usize;
                match &self.nodes_[curr_index] {
                    Slot::Live(sample) => {
                        proof {
                            assert(i < s.len());
                            assert(pre.nodes_@[curr_index as int] == Slot::Live(*sample));
                            assert(sample.key_ == s[i].0);
                        }
                        match key.compare(&sample.key_) {
                            Cmp::Equal => {
                                // Insert with an already existing key is a 'nop'
                                proof {
                                    assert(plan == InsertPlan::Existing(i));
                                }
                                return Ok(curr_index);
                            },
                            Cmp::Less => {
                                insert_before = Some(curr_index);
                                proof {
                                    planned_pos = i;
                                    assert(plan == InsertPlan::Before(i));
                                }
                                sample_next = curr_index;
                            },
                            Cmp::Greater => {
                                sample_next = sample.next_;
                                proof {
                                    i = i + 1;
                                }
                            },
                        }
                    },
                    _ => {
                        proof {
                            assert(false);
                        }
                        return Err(MapError::InvariantViolation);
                    },
                }
                if insert_before.is_none() {
                    curr_index = sample_next;
                }
            }
        } else {
            // we are searching up the list, stop at the first key that is
            // equal or not greater
            insert_before = Some(curr_index);
            proof {
                planned_pos = hpos;
            }
            let ghost mut i: int = hpos;
            let ghost mut best: int = hpos;
            let mut stop: bool = false;
            while curr_index != OUT_OF_BOUNDS && !stop
                invariant
                    *self == pre,
                    pre == *old(self),
                    pre.wf(),
                    s == pre@,
                    hpos == pre.hint_pos(position),
                    plan == insert_plan(s, hpos, key),
                    0 <= hpos < s.len(),
                    lt_k(key, s[hpos].0),
                    -1 <= i <= hpos,
                    0 <= best < s.len(),
                    i <= best <= i + 1,
                    lt_k(key, s[best].0),
                    insert_before == Some(pre.chain_g@[best]),
                    planned_pos == best,
                    0 <= i ==> curr_index == pre.chain_g@[i],
                    i == -1 ==> curr_index == OUT_OF_BOUNDS,
                    !stop ==> bwd_plan(s, i, best, key) == plan,
                    stop ==> plan == InsertPlan::Before(best),
                decreases 2 * i + 2 + (if stop { 0int } else { 1int }),
            {
                match &self.nodes_[curr_index] {
                    Slot::Live(sample) => {
                        proof {
                            assert(0 <= i < s.len());
                            assert(pre.nodes_@[curr_index as int] == Slot::Live(*sample));
                            assert(sample.key_ == s[i].0);
                        }
                        match key.compare(&sample.key_) {
                            Cmp::Equal => {
                                // Insert with an already existing key is a 'nop'
                                proof {
                                    assert(plan == InsertPlan::Existing(i));
                                }
                                return Ok(curr_index);
                            },
                            Cmp::Less => {
                                insert_before = Some(curr_index);
                                let sample_prev = sample.prev_;
                                proof {
                                    best = i;
                                    planned_pos = i;
                                    i = i - 1;
                                }
                                curr_index = sample_prev;
                            },
                            Cmp::Greater => {
                                stop = true;
                            },
                        }
                    },
                    _ => {
                        proof {
                            assert(false);
                        }
                        return Err(MapError::InvariantViolation);
                    },
                }
            }
        }
        proof {
            if pre.sorted() {
                lemma_plan_sorted(s, hpos, key, value);
            }
        }
        if let Some(ib) = insert_before {
            proof {
                assert(plan == InsertPlan::Before(planned_pos));
                assert(ib == pre.chain_g@[planned_pos]);
                pre.lemma_pos_of(ib);
                assert(pre.pos_of(ib) == planned_pos);
            }
            self.insert_before_(ib, key, value)
        } else {
            proof {
                assert(plan == InsertPlan::Append);
            }
            self.push_back_(key, value)
        }
    }

    /// Returns the index of the first element in the container whose key is
    /// not considered to go before `key` (i.e., either it is equivalent or
    /// goes after), searching from the tail. Returns `None` if no such
    /// element is found.
    pub fn lower_bound(&self, key: K) -> (r: Result<Option<usize>, MapError>)
        requires
            self.wf(),
        ensures
            r == Ok::<Option<usize>, MapError>(
                match lb_scan(self@, self@.len() - 1, None::<int>, key) {
                    Option::Some(p) => Some(self.chain()[p]),
                    Option::None => None::<usize>,
                },
            ),
    {
        let ghost s = self@;
        let ghost target = lb_scan(s, s.len() - 1, None::<int>, key);
        // sequential search from the rear
        if self.tail_ == OUT_OF_BOUNDS {
            return Ok(None);
        }
        let mut last_match: Option<usize> = None;
        let mut curr_index = self.tail_;
        let ghost mut i: int = s.len() - 1;
        let ghost mut found: Option<int> = None;
        let mut stop: bool = false;
        while curr_index != OUT_OF_BOUNDS && !stop
            invariant
                self.wf(),
                s == self@,
                target == lb_scan(s, s.len() - 1, None::<int>, key),
                -1 <= i < s.len(),
                0 <= i ==> curr_index == self.chain_g@[i],
                i == -1 ==> curr_index == OUT_OF_BOUNDS,
                match found {
                    Option::None => last_match == None::<usize>,
                    Option::Some(f) => 0 <= f < s.len() && last_match == Some(self.chain_g@[f]),
                },
                !stop ==> lb_scan(s, i, found, key) == target,
                stop ==> found == target,
            decreases 2 * i + 2 + (if stop { 0int } else { 1int }),
        {
            match &self.nodes_[curr_index] {
                Slot::Live(sample) => {
                    proof {
                        assert(0 <= i < s.len());
                        assert(self.nodes_@[curr_index as int] == Slot::Live(*sample));
                        assert(sample.key_ == s[i].0);
                    }
                    if !matches!(key.compare(&sample.key_), Cmp::Greater) {
                        last_match = Some(curr_index);
                        let sample_prev = sample.prev_;
                        proof {
                            assert(key.le(s[i].0));
                            found = Some(i);
                            i = i - 1;
                        }
                        curr_index = sample_prev;
                    } else {
                        proof {
                            assert(!key.le(s[i].0)) by {
                                K::total(key, s[i].0);
                            }
                        }
                        stop = true;
                    }
                },
                _ => {
                    proof {
                        assert(false);
                    }
                    return Err(MapError::InvariantViolation);
                },
            }
        }
        Ok(last_match)
    }
}

/// Relies on Vec::capacity: the number of elements the vector can hold
/// without reallocating, which is at least its length.
#[verifier::external_body]
fn vec_capacity<T>(v: &Vec<T>) -> (r: usize)
    ensures
        r >= v@.len(),
{
    v.capacity()
}

/// A double ended iterator over the entries of a list, yielding references
/// to each key and value. The forward and backward traversals hold
/// independent cursors that meet in the middle: between them the two
/// directions yield every entry exactly once. Restartable: `iter` always
/// hands out a fresh, independent traversal.
#[derive(Clone)]
pub struct ListIterator<'a, K, V> {
    list_: &'a LinkedList<K, V>,
    my_next_: usize,
    my_back_: usize,
    pos: Ghost<int>,
    bpos: Ghost<int>,
}

impl<'a, K, V> ListIterator<'a, K, V> {
    /// The list the traversal walks over.
    pub closed spec fn list(&self) -> LinkedList<K, V> {
        *self.list_
    }

    /// The entries not yet yielded, front first.
    pub closed spec fn remaining(&self) -> Seq<(K, V)> {
        self.list_@.subrange(self.pos@, self.bpos@)
    }

    /// The traversal is attached to a well-formed list; its two cursors sit
    /// at the first and last not-yet-yielded chain positions, or at the
    /// sentinel once they have met.
    pub closed spec fn wf(&self) -> bool {
        &&& self.list_.wf()
        &&& 0 <= self.pos@ <= self.bpos@ <= self.list_.chain_g@.len()
        &&& self.pos@ < self.bpos@ ==> self.my_next_ == self.list_.chain_g@[self.pos@]
            && self.my_back_ == self.list_.chain_g@[self.bpos@ - 1]
        &&& self.pos@ == self.bpos@ ==> self.my_next_ == OUT_OF_BOUNDS && self.my_back_
            == OUT_OF_BOUNDS
    }

    /// Step the iterator forward one step, yielding the entry it was at.
    pub fn next(&mut self) -> (r: Option<(&'a K, &'a V)>)
        requires
            old(self).wf(),
        ensures
            final(self).wf(),
            final(self).list() == old(self).list(),
            match r {
                Some(e) => old(self).remaining().len() > 0 && *e.0 == old(
                    self,
                ).remaining()[0].0 && *e.1 == old(self).remaining()[0].1
                    && final(self).remaining() == old(self).remaining().drop_first(),
                None => old(self).remaining().len() == 0 && final(self).remaining() == old(
                    self,
                ).remaining(),
            },
    {
        if self.my_next_ == OUT_OF_BOUNDS {
            proof {
                assert(old(self).remaining() =~= final(self).remaining());
            }
            return None;
        }
        let list = self.list_;
        proof {
            assert(self.pos@ < self.bpos@);
            assert(self.my_next_ == list.chain_g@[self.pos@]);
            assert(self.my_back_ == list.chain_g@[self.bpos@ - 1]);
            assert(list.nodes_@[self.my_next_ as int] is Live);
        }
        match &list.nodes_[self.my_next_] {
            Slot::Live(node) => {
                let ghost p = self.pos@;
                if self.my_next_ == self.my_back_ {
                    // the two cursors met: this was the last entry
                    proof {
                        assert(p == self.bpos@ - 1);
                    }
                    self.my_next_ = OUT_OF_BOUNDS;
                    self.my_back_ = OUT_OF_BOUNDS;
                } else {
                    proof {
                        assert(p != self.bpos@ - 1);
                    }
                    self.my_next_ = node.next_;
                }
                self.pos = Ghost(p + 1);
                proof {
                    assert(list@[p] == list.entry_at(list.chain_g@[p] as int));
                    assert(old(self).remaining()[0] == list@[p]);
                    assert(final(self).remaining() =~= old(self).remaining().drop_first());
                }
                Some((&node.key_, &node.value_))
            },
            _ => {
                proof {
                    assert(false);
                }
                None
            },
        }
    }

    /// Step the iterator backward one step, yielding the entry its back
    /// cursor was at.
    pub fn next_back(&mut self) -> (r: Option<(&'a K, &'a V)>)
        requires
            old(self).wf(),
        ensures
            final(self).wf(),
            final(self).list() == old(self).list(),
            match r {
                Some(e) => old(self).remaining().len() > 0 && *e.0 == old(
                    self,
                ).remaining().last().0 && *e.1 == old(self).remaining().last().1
                    && final(self).remaining() == old(self).remaining().drop_last(),
                None => old(self).remaining().len() == 0 && final(self).remaining() == old(
                    self,
                ).remaining(),
            },
    {
        if self.my_back_ == OUT_OF_BOUNDS {
            proof {
                assert(old(self).remaining() =~= final(self).remaining());
            }
            return None;
        }
        let list = self.list_;
        proof {
            assert(self.pos@ < self.bpos@);
            assert(self.my_next_ == list.chain_g@[self.pos@]);
            assert(self.my_back_ == list.chain_g@[self.bpos@ - 1]);
            assert(list.nodes_@[self.my_back_ as int] is Live);
        }
        match &list.nodes_[self.my_back_] {
            Slot::Live(node) => {
                let ghost b = self.bpos@;
                if self.my_back_ == self.my_next_ {
                    // the two cursors met: this was the last entry
                    proof {
                        assert(self.pos@ == b - 1);
                    }
                    self.my_next_ = OUT_OF_BOUNDS;
                    self.my_back_ = OUT_OF_BOUNDS;
                } else {
                    proof {
                        assert(self.pos@ != b - 1);
                    }
                    self.my_back_ = node.prev_;
                }
                self.bpos = Ghost(b - 1);
                proof {
                    assert(list@[b - 1] == list.entry_at(list.chain_g@[b - 1] as int));
                    assert(old(self).remaining().last() == list@[b - 1]);
                    assert(final(self).remaining() =~= old(self).remaining().drop_last());
                }
                Some((&node.key_, &node.value_))
            },
            _ => {
                proof {
                    assert(false);
                }
                None
            },
        }
    }
}

/// An effort to emulate a C++ std::map iterator: a movable, mutation-capable
/// cursor holding a slot index into a list. The list itself is handed to
/// each operation by reference, so the borrow checker rules out conflicting
/// mutation statically.
#[derive(Clone, Copy, Debug)]
pub struct PIterator {
    current: usize,
}

impl PIterator {
    /// The slot index the cursor is at (the sentinel when it has moved past
    /// an end).
    pub closed spec fn cur(&self) -> usize {
        self.current
    }

    /// Initiates the pointer with a list, set current to the head of the
    /// list.
    pub fn new<K, V>(list: &LinkedList<K, V>) -> (r: Self)
        requires
            list.wf(),
        ensures
            r.cur() == list.head_index(),
    {
        Self { current: list.head() }
    }

    /// Initiates the pointer with a list, at an explicit index.
    pub fn new_2<K, V>(_list: &LinkedList<K, V>, current: usize) -> (r: Self)
        ensures
            r.cur() == current,
    {
        Self { current }
    }

    /// Returns a copy of the key at the current position.
    pub fn get_k<K: Copy, V>(&self, list: &LinkedList<K, V>) -> (r: Result<K, MapError>)
        requires
            list.wf(),
        ensures
            match r {
                Ok(k) => list.live_at(self.cur() as int) && k == list.entry_at(
                    self.cur() as int,
                ).0,
                Err(MapError::NotFound) => self.cur() >= list.slot_count(),
                Err(MapError::Tombstoned) => self.cur() < list.slot_count() && !list.live_at(
                    self.cur() as int,
                ),
                Err(_) => false,
            },
            r is Ok <==> list.live_at(self.cur() as int),
    {
        match list.get(self.current) {
            Ok(e) => Ok(*e.0),
            Err(e) => Err(e),
        }
    }

    /// Returns a copy of the value at the current position.
    pub fn get_v<K, V: Copy>(&self, list: &LinkedList<K, V>) -> (r: Result<V, MapError>)
        requires
            list.wf(),
        ensures
            match r {
                Ok(v) => list.live_at(self.cur() as int) && v == list.entry_at(
                    self.cur() as int,
                ).1,
                Err(MapError::NotFound) => self.cur() >= list.slot_count(),
                Err(MapError::Tombstoned) => self.cur() < list.slot_count() && !list.live_at(
                    self.cur() as int,
                ),
                Err(_) => false,
            },
            r is Ok <==> list.live_at(self.cur() as int),
    {
        match list.get(self.current) {
            Ok(e) => Ok(*e.1),
            Err(e) => Err(e),
        }
    }

    /// Move to the next element; moving off the tail (or from any index
    /// outside the arena) parks the cursor at the sentinel. Always check
    /// validity with `is_ok` afterwards.
    pub fn next<K, V>(&mut self, list: &LinkedList<K, V>) -> (r: Result<(), MapError>)
        requires
            list.wf(),
        ensures
            match r {
                Ok(()) => (if list.live_at(old(self).cur() as int) {
                    let p = list.pos_of(old(self).cur());
                    final(self).cur() == (if p == list.chain().len() - 1 {
                        OUT_OF_BOUNDS
                    } else {
                        list.chain()[p + 1]
                    })
                } else {
                    old(self).cur() >= list.slot_count() && final(self).cur() == OUT_OF_BOUNDS
                }),
                Err(e) => e == MapError::InvariantViolation && old(self).cur()
                    < list.slot_count() && !list.live_at(old(self).cur() as int)
                    && final(self).cur() == old(self).cur(),
            },
            r is Ok <==> (list.live_at(old(self).cur() as int) || old(self).cur()
                >= list.slot_count()),
    {
        if self.current >= list.nodes_.len() {
            self.current = OUT_OF_BOUNDS;
            return Ok(());
        }
        proof {
            if list.live_at(self.current as int) {
                list.lemma_pos_of(self.current);
            }
        }
        match &list.nodes_[self.current] {
            Slot::Live(node) => {
                self.current = node.next_;
                Ok(())
            },
            // tombstoned slots should be inaccessible
            _ => Err(MapError::InvariantViolation),
        }
    }

    /// Move to the previous element; moving off the head (or from any index
    /// outside the arena) parks the cursor at the sentinel. Always check
    /// validity with `is_ok` afterwards.
    pub fn prev<K, V>(&mut self, list: &LinkedList<K, V>) -> (r: Result<(), MapError>)
        requires
            list.wf(),
        ensures
            match r {
                Ok(()) => (if list.live_at(old(self).cur() as int) {
                    let p = list.pos_of(old(self).cur());
                    final(self).cur() == (if p == 0 {
                        OUT_OF_BOUNDS
                    } else {
                        list.chain()[p - 1]
                    })
                } else {
                    old(self).cur() >= list.slot_count() && final(self).cur() == OUT_OF_BOUNDS
                }),
                Err(e) => e == MapError::InvariantViolation && old(self).cur()
                    < list.slot_count() && !list.live_at(old(self).cur() as int)
                    && final(self).cur() == old(self).cur(),
            },
            r is Ok <==> (list.live_at(old(self).cur() as int) || old(self).cur()
                >= list.slot_count()),
    {
        if self.current >= list.nodes_.len() {
            self.current = OUT_OF_BOUNDS;
            return Ok(());
        }
        proof {
            if list.live_at(self.current as int) {
                list.lemma_pos_of(self.current);
            }
        }
        match &list.nodes_[self.current] {
            Slot::Live(node) => {
                self.current = node.prev_;
                Ok(())
            },
            // tombstoned slots should be inaccessible
            _ => Err(MapError::InvariantViolation),
        }
    }

    /// Move to the first element.
    pub fn move_to_head<K, V>(&mut self, list: &LinkedList<K, V>) -> (r: Result<(), MapError>)
        requires
            list.wf(),
        ensures
            r is Ok,
            final(self).cur() == list.head_index(),
    {
        self.current = list.head();
        Ok(())
    }

    /// Move to the last element.
    pub fn move_to_tail<K, V>(&mut self, list: &LinkedList<K, V>) -> (r: Result<(), MapError>)
        requires
            list.wf(),
        ensures
            r is Ok,
            final(self).cur() == list.tail_index(),
    {
        self.current = list.tail();
        Ok(())
    }

    /// Return true if the pointer has *not* moved past the beginning or end
    /// of the list and addresses a live slot.
    pub fn is_ok<K, V>(&self, list: &LinkedList<K, V>) -> (r: bool)
        requires
            list.wf(),
        ensures
            r == list.live_at(self.cur() as int),
    {
        if self.current == OUT_OF_BOUNDS || self.current >= list.nodes_.len() {
            return false;
        }
        match &list.nodes_[self.current] {
            Slot::Live(_) => true,
            _ => false,
        }
    }

    /// Return true if the pointer is at the head position (also when the
    /// list is empty and the pointer is at the sentinel).
    pub fn is_at_head<K, V>(&self, list: &LinkedList<K, V>) -> (r: bool)
        requires
            list.wf(),
        ensures
            r == (self.cur() == list.head_index()),
    {
        self.current == list.head()
    }

    /// Return true if the pointer is at the tail position (also when the
    /// list is empty and the pointer is at the sentinel).
    pub fn is_at_tail<K, V>(&self, list: &LinkedList<K, V>) -> (r: bool)
        requires
            list.wf(),
        ensures
            r == (self.cur() == list.tail_index()),
    {
        self.current == list.tail()
    }

    /// Replace the key at the current position in place, without relinking.
    /// This destroys the internal order of elements if the replacement is
    /// out of order; a stale cursor position makes this a silent no-op.
    pub fn replace_key<K, V>(&self, list: &mut LinkedList<K, V>, key: K) -> (r: Result<
        (),
        MapError,
    >)
        requires
            old(list).wf(),
        ensures
            final(list).wf(),
            r is Ok,
            (if old(list).live_at(self.cur() as int) {
                let p = old(list).pos_of(self.cur());
                &&& final(list)@ == old(list)@.update(p, (key, old(list)@[p].1))
                &&& final(list).chain() == old(list).chain()
                &&& final(list).free_slots() == old(list).free_slots()
                &&& final(list).detached_count() == old(list).detached_count()
                &&& final(list).slot_count() == old(list).slot_count()
                &&& final(list).live_at(self.cur() as int)
                &&& final(list).entry_at(self.cur() as int) == (key, old(list)@[p].1)
                &&& (forall|j: int| 0 <= j < old(list).slot_count() && j != self.cur()
                    ==> #[trigger] slot_preserved(*old(list), *final(list), j))
            } else {
                *final(list) == *old(list)
            }),
    {
        if self.current >= list.nodes_.len() {
            return Ok(());
        }
        let is_live = match &list.nodes_[self.current] {
            Slot::Live(_) => true,
            _ => false,
        };
        if !is_live {
            return Ok(());
        }
        let ghost pre = *old(list);
        let cur = self.current;
        proof {
            pre.lemma_pos_of(cur);
        }
        match &mut list.nodes_[cur] {
            Slot::Live(node) => {
                node.key_ = key;
            },
            _ => {
                proof {
                    assert(false);
                }
                return Err(MapError::InvariantViolation);
            },
        }
        proof {
            let p = pre.pos_of(cur);
            let c = list.chain_g@;
            assert(c == pre.chain_g@);
            assert forall|q: int| #![trigger c[q]] 0 <= q < c.len()
                implies c[q] < list.nodes_@.len() && list.nodes_@[c[q] as int] is Live
                    && list.nodes_@[c[q] as int].node().prev_
                    == pre.nodes_@[c[q] as int].node().prev_
                    && list.nodes_@[c[q] as int].node().next_
                    == pre.nodes_@[c[q] as int].node().next_ by {
                if c[q] != cur {
                    assert(list.nodes_@[c[q] as int] == pre.nodes_@[c[q] as int]);
                }
            }
            assert forall|q: int| #![trigger list.detached_g@[q]]
                0 <= q < list.detached_g@.len()
                implies list.detached_g@[q] < list.nodes_@.len()
                    && list.nodes_@[list.detached_g@[q] as int] is Detached by {
                assert(pre.nodes_@[pre.detached_g@[q] as int] is Detached);
                assert(pre.detached_g@[q] != cur);
            }
            assert forall|q: int| #![trigger list.id_pool_@[q]] 0 <= q < list.id_pool_@.len()
                implies list.id_pool_@[q] < list.nodes_@.len()
                    && list.nodes_@[list.id_pool_@[q] as int] is Free by {
                assert(pre.nodes_@[pre.id_pool_@[q] as int] is Free);
                assert(pre.id_pool_@[q] != cur);
            }
            assert forall|j: int| #![trigger list.nodes_@[j]] 0 <= j < list.nodes_@.len()
                implies {
                    &&& (list.nodes_@[j] is Live ==> c.contains(j as usize))
                    &&& (list.nodes_@[j] is Detached ==> list.detached_g@.contains(j as usize))
                    &&& (list.nodes_@[j] is Free ==> list.id_pool_@.contains(j as usize))
                } by {
                if j != cur {
                    assert(list.nodes_@[j] == pre.nodes_@[j]);
                } else {
                    assert(c[p] == cur);
                    assert(c.contains(cur));
                }
            }
            assert(list.wf());
            assert(list@ =~= pre@.update(p, (key, pre@[p].1))) by {
                assert forall|q: int| 0 <= q < c.len() implies list@[q] == pre@.update(
                    p,
                    (key, pre@[p].1),
                )[q] by {
                    if q != p {
                        assert(c[q] != cur);
                        assert(list.nodes_@[c[q] as int] == pre.nodes_@[c[q] as int]);
                    }
                }
            }
            assert forall|j: int| 0 <= j < pre.slot_count() && j != cur
                implies #[trigger] slot_preserved(pre, *list, j) by {
                assert(list.nodes_@[j] == pre.nodes_@[j]);
            }
        }
        Ok(())
    }

    /// returns current index
    pub fn current(&self) -> (r: usize)
        ensures
            r == self.cur(),
    {
        self.current
    }

    /// Remove the current element and return it. Current moves to the old
    /// prev index if one exists, else to the old next index (so repeated
    /// removal from an end drains the list). With `disconnect_only` the slot
    /// is left permanently occupied-but-dead instead of being recycled.
    /// Note: make sure that there are no other pointer objects at this
    /// position.
    pub fn remove_current<K, V>(
        &mut self,
        list: &mut LinkedList<K, V>,
        disconnect_only: bool,
    ) -> (r: Result<(K, V), MapError>)
        requires
            old(list).wf(),
        ensures
            final(list).wf(),
            match r {
                Ok(entry) => ({
                    let p = old(list).pos_of(old(self).cur());
                    let cp = old(list).chain();
                    &&& old(list).live_at(old(self).cur() as int)
                    &&& entry == old(list)@[p]
                    &&& removed_at(*old(list), *final(list), p, disconnect_only)
                    &&& final(self).cur() == (if p > 0 {
                        cp[p - 1]
                    } else if p < cp.len() - 1 {
                        cp[p + 1]
                    } else {
                        OUT_OF_BOUNDS
                    })
                }),
                Err(MapError::InvariantViolation) => old(list)@.len() == 0 && *final(list)
                    == *old(list) && final(self).cur() == old(self).cur(),
                Err(MapError::NotFound) => old(list)@.len() > 0 && old(self).cur()
                    >= old(list).slot_count() && *final(list) == *old(list) && final(self).cur()
                    == old(self).cur(),
                Err(MapError::Tombstoned) => old(list)@.len() > 0 && old(self).cur()
                    < old(list).slot_count() && !old(list).live_at(old(self).cur() as int)
                    && *final(list) == *old(list) && final(self).cur() == old(self).cur(),
                Err(MapError::BorrowConflict) => false,
            },
            r is Ok <==> (old(list)@.len() > 0 && old(list).live_at(old(self).cur() as int)),
    {
        let rv = match list.remove__(self.current, disconnect_only) {
            Ok(rv) => rv,
            Err(e) => {
                return Err(e);
            },
        };
        if rv.0 != OUT_OF_BOUNDS {
            self.current = rv.0;
        } else {
            self.current = rv.2;
        }
        Ok(rv.1)
    }

    /// Returns a new pointer positioned at the lower bound item: the first
    /// element whose key is not considered to go before `key` (i.e., either
    /// it is equivalent or goes after). The pointer reports `is_ok` false if
    /// no such element exists.
    pub fn lower_bound<K: TotalOrdered, V>(list: &LinkedList<K, V>, key: K) -> (r: Result<
        Self,
        MapError,
    >)
        requires
            list.wf(),
        ensures
            r is Ok,
            r.unwrap().cur() == (match lb_scan(list@, list@.len() - 1, None::<int>, key) {
                Option::Some(p) => list.chain()[p],
                Option::None => OUT_OF_BOUNDS,
            }),
    {
        match list.lower_bound(key) {
            Ok(Some(position)) => Ok(Self { current: position }),
            Ok(None) => Ok(Self { current: OUT_OF_BOUNDS }),
            Err(_) => {
                proof {
                    assert(false);
                }
                Err(MapError::InvariantViolation)
            },
        }
    }
}

impl<K, V> Default for LinkedList<K, V> {
    /// An empty list with nothing allocated.
    fn default() -> (r: Self)
        ensures
            r.wf(),
            r@ == Seq::<(K, V)>::empty(),
            r.chain() == Seq::<usize>::empty(),
            r.slot_count() == 0,
            r.free_slots() == Seq::<usize>::empty(),
            r.detached_count() == 0,
    {
        let r = Self {
            head_: OUT_OF_BOUNDS,
            tail_: OUT_OF_BOUNDS,
            nodes_: Vec::new(),
            id_pool_: Vec::new(),
            chain_g: Ghost(Seq::empty()),
            detached_g: Ghost(Seq::empty()),
        };
        proof {
            assert(r@ =~= Seq::<(K, V)>::empty());
        }
        r
    }
}

/// Round trip at the front: pushing an entry onto an empty entry sequence
/// (as `push_front_` does, inserting at position 0) yields the one-entry
/// sequence, and removing its front (as `pop_front` does) returns exactly
/// that entry and leaves the sequence empty again.
pub proof fn lemma_push_pop_round_trip<K, V>(s0: Seq<(K, V)>, s1: Seq<(K, V)>, key: K, value: V)
    requires
        s0.len() == 0,
        s1 == s0.insert(0, (key, value)),
    ensures
        s1.len() == 1,
        s1[0] == (key, value),
        s1.remove(0) == s0,
{
    s0.insert_ensures(0, (key, value));
    assert(s1.remove(0) =~= s0);
}

/// Duplicate policy (reject): on a sorted entry sequence, an ordered insert
/// of a key that is already present plans a no-op at some comparison-equal
/// entry, whatever hint the scan was anchored at. Together with the
/// `Existing` case of `ordered_insert_pos`, which leaves the list untouched
/// and returns the existing entry's index, length, order and the stored
/// value are all unchanged.
pub proof fn lemma_duplicate_insert_is_nop<K: TotalOrdered, V>(s: Seq<(K, V)>, hpos: int, key: K)
    requires
        entries_sorted(s),
        0 <= hpos < s.len(),
        exists|q: int| 0 <= q < s.len() && eq_k(key, (#[trigger] s[q]).0),
    ensures
        insert_plan(s, hpos, key) is Existing,
        match insert_plan(s, hpos, key) {
            InsertPlan::Existing(e) => 0 <= e < s.len() && eq_k(key, s[e].0),
            _ => false,
        },
{
    let q0 = choose|q: int| 0 <= q < s.len() && eq_k(key, (#[trigger] s[q]).0);
    if !lt_k(key, s[hpos].0) {
        K::total(key, s[hpos].0);
        lemma_fwd_plan_props(s, hpos, key);
        match fwd_plan(s, hpos, key) {
            InsertPlan::Existing(e) => {
            },
            InsertPlan::Before(b) => {
                if q0 < hpos {
                    // an equal key before the anchor forces the anchor key
                    // up to the new key, so the scan would have stopped at
                    // the anchor as equal
                    K::transitive(key, s[q0].0, s[hpos].0);
                    assert(eq_k(key, s[hpos].0));
                    assert(false);
                } else if q0 < b {
                    assert(lt_k(s[q0].0, key));
                    assert(false);
                } else {
                    if q0 > b {
                        K::transitive(s[b].0, s[q0].0, key);
                    }
                    assert(false);
                }
            },
            InsertPlan::Append => {
                if q0 < hpos {
                    K::transitive(key, s[q0].0, s[hpos].0);
                    assert(eq_k(key, s[hpos].0));
                    assert(false);
                } else {
                    assert(lt_k(s[q0].0, key));
                    assert(false);
                }
            },
        }
    } else {
        lemma_bwd_plan_props(s, hpos, hpos, key);
        match bwd_plan(s, hpos, hpos, key) {
            InsertPlan::Existing(e) => {
            },
            InsertPlan::Before(b) => {
                if q0 < b {
                    if q0 < b - 1 {
                        K::transitive(key, s[q0].0, s[b - 1].0);
                    }
                    assert(false);
                } else {
                    if q0 > b {
                        K::transitive(s[b].0, s[q0].0, key);
                    }
                    assert(false);
                }
            },
            InsertPlan::Append => {
                assert(false);
            },
        }
    }
}

/// On a sorted entry sequence that does not hold the key, an ordered insert
/// lands at the unique boundary: in front of the first entry whose key is
/// strictly greater, or at the back when there is none. The hint anchors
/// the scan but cannot change where the entry ends up.
pub proof fn lemma_insert_plan_canonical<K: TotalOrdered, V>(s: Seq<(K, V)>, hpos: int, key: K)
    requires
        entries_sorted(s),
        s.len() > 0 ==> 0 <= hpos < s.len(),
        forall|q: int| 0 <= q < s.len() ==> !eq_k(key, (#[trigger] s[q]).0),
    ensures
        match insert_plan(s, hpos, key) {
            InsertPlan::Existing(e) => false,
            InsertPlan::Before(b) => 0 <= b < s.len() && lt_k(key, s[b].0) && (forall|q: int|
                0 <= q < b ==> !lt_k(key, (#[trigger] s[q]).0)),
            InsertPlan::Append => forall|q: int|
                0 <= q < s.len() ==> !lt_k(key, (#[trigger] s[q]).0),
        },
{
    if s.len() == 0 {
    } else if !lt_k(key, s[hpos].0) {
        K::total(key, s[hpos].0);
        assert(s[hpos].0.le(key));
        lemma_fwd_plan_props(s, hpos, key);
        match fwd_plan(s, hpos, key) {
            InsertPlan::Existing(e) => {
                assert(false);
            },
            InsertPlan::Before(b) => {
                assert forall|q: int| 0 <= q < b implies !lt_k(key, (#[trigger] s[q]).0) by {
                    lemma_le_chain_down(s, q, b, key, hpos);
                }
            },
            InsertPlan::Append => {
                assert forall|q: int| 0 <= q < s.len() implies !lt_k(
                    key,
                    (#[trigger] s[q]).0,
                ) by {
                    lemma_le_chain_down(s, q, s.len() as int, key, hpos);
                }
            },
        }
    } else {
        lemma_bwd_plan_props(s, hpos, hpos, key);
        match bwd_plan(s, hpos, hpos, key) {
            InsertPlan::Existing(e) => {
                assert(false);
            },
            InsertPlan::Before(b) => {
                assert forall|q: int| 0 <= q < b implies !lt_k(key, (#[trigger] s[q]).0) by {
                    assert(lt_k(s[b - 1].0, key));
                    if q < b - 1 {
                        K::transitive(s[q].0, s[b - 1].0, key);
                    }
                }
            },
            InsertPlan::Append => {
                assert(false);
            },
        }
    }
}

/// Index reuse: an allocation performed right after a full-erase removal
/// reuses the freed slot, most recently freed first. `removed_at` puts the
/// erased index on top of the free stack, and the next insert's
/// `inserted_at` hands out exactly `next_slot`, which is that top.
pub proof fn lemma_slot_reuse<K, V>(l: LinkedList<K, V>, freed: usize)
    requires
        l.free_slots().len() > 0,
        l.free_slots().last() == freed,
    ensures
        l.next_slot() == freed,
{
}

/// On a sorted entry sequence, the `lower_bound` scan finds the first
/// (head-most) entry whose key is not below the query key, and `None`
/// exactly when every key is below it.
pub proof fn lemma_lower_bound_sorted<K: TotalOrdered, V>(s: Seq<(K, V)>, key: K)
    requires
        entries_sorted(s),
    ensures
        match lb_scan(s, s.len() - 1, None::<int>, key) {
            Option::Some(p) => 0 <= p < s.len() && key.le(s[p].0) && (forall|q: int|
                0 <= q < p ==> !key.le(#[trigger] s[q].0)),
            Option::None => forall|q: int| 0 <= q < s.len() ==> !key.le(#[trigger] s[q].0),
        },
{
    lemma_lb_scan_sorted_rec(s, s.len() - 1, key);
}

/// Inductive core of `lemma_lower_bound_sorted`: walking from position `i`
/// toward the head with every later key already known to be at or above the
/// query key.
proof fn lemma_lb_scan_sorted_rec<K: TotalOrdered, V>(s: Seq<(K, V)>, i: int, key: K)
    requires
        entries_sorted(s),
        -1 <= i < s.len(),
        forall|q: int| i < q < s.len() ==> key.le(#[trigger] s[q].0),
    ensures
        match lb_scan(
            s,
            i,
            if i + 1 < s.len() { Some(i + 1) } else { None::<int> },
            key,
        ) {
            Option::Some(p) => 0 <= p < s.len() && key.le(s[p].0) && (forall|q: int|
                0 <= q < p ==> !key.le(#[trigger] s[q].0)),
            Option::None => forall|q: int| 0 <= q < s.len() ==> !key.le(#[trigger] s[q].0),
        },
    decreases i + 1,
{
    if i >= 0 {
        if key.le(s[i].0) {
            lemma_lb_scan_sorted_rec(s, i - 1, key);
        } else {
            assert forall|q: int| 0 <= q <= i implies !key.le(#[trigger] s[q].0) by {
                if q < i && key.le(s[q].0) {
                    K::transitive(key, s[q].0, s[i].0);
                }
            }
        }
    }
}

} // verus!
