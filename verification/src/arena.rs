//! The growable arena: slots are stored in a vector that extends on
//! demand, and freed slots are reused through an intrusive free list
//! threaded through the slot storage itself.

use vstd::prelude::*;
use vstd::pervasive::arbitrary;
use core::marker::PhantomData;

verus! {

/// One storage position of an arena: either it holds a value together
/// with the generation under which the value was inserted, or it is free
/// and remembers the generation it will carry when reallocated, plus an
/// optional link to the next free slot.
pub enum ArenaCell<T> {
    Allocated { val: T, generation: usize },
    Freed { next: Option<usize>, generation: usize },
}

impl<T> ArenaCell<T> {
    /// Whether this slot currently holds a value.
    pub open spec fn is_live(&self) -> bool {
        *self is Allocated
    }

    /// The generation currently recorded in the slot, whichever state it is in.
    pub open spec fn generation(&self) -> usize {
        match *self {
            ArenaCell::Allocated { generation, .. } => generation,
            ArenaCell::Freed { generation, .. } => generation,
        }
    }

    /// The stored value; meaningful only for a live slot.
    pub open spec fn value(&self) -> T
        recommends
            self.is_live(),
    {
        match *self {
            ArenaCell::Allocated { val, .. } => val,
            ArenaCell::Freed { .. } => arbitrary(),
        }
    }

    /// The free-list link; meaningful only for a free slot.
    pub open spec fn next_free(&self) -> Option<usize>
        recommends
            !self.is_live(),
    {
        match *self {
            ArenaCell::Allocated { .. } => None,
            ArenaCell::Freed { next, .. } => next,
        }
    }
}

/// The index of the first live slot at or after `from`, if any.
pub open spec fn next_live<T>(s: Seq<ArenaCell<T>>, from: int) -> Option<int>
    decreases s.len() - from,
{
    if from < 0 || from >= s.len() {
        None
    } else if s[from].is_live() {
        Some(from)
    } else {
        next_live(s, from + 1)
    }
}

/// What `next_live` finds: a live slot with nothing live before it, or the
/// guarantee that nothing at or after `from` is live.
pub proof fn lemma_next_live<T>(s: Seq<ArenaCell<T>>, from: int)
    requires
        0 <= from,
    ensures
        match next_live(s, from) {
            Some(i) => {
                &&& from <= i < s.len()
                &&& s[i].is_live()
                &&& forall|j: int| from <= j < i ==> !(#[trigger] s[j]).is_live()
            },
            None => forall|j: int| from <= j < s.len() ==> !(#[trigger] s[j]).is_live(),
        },
    decreases s.len() - from,
{
    if from < s.len() && !s[from].is_live() {
        lemma_next_live(s, from + 1);
    }
}

/// The number of live slots in a slot sequence.
pub open spec fn live_count<T>(s: Seq<ArenaCell<T>>) -> nat
    decreases s.len(),
{
    if s.len() == 0 {
        0
    } else {
        live_count(s.drop_last()) + if s.last().is_live() {
            1nat
        } else {
            0nat
        }
    }
}

/// A handle into an [`Arena`]: a slot index paired with the generation the
/// slot carried when the handle was issued. The phantom tag ties a handle
/// to the element type of the arena it came from; it carries no run-time
/// state and does not take part in equality.
#[derive(Debug, PartialEq, Eq)]
pub struct ArenaIdx<T> {
    index: usize,
    generation: usize,
    _ty: PhantomData<T>,
}

impl<T> ArenaIdx<T> {
    /// The slot index the handle refers to.
    pub closed spec fn spec_idx(&self) -> usize {
        self.index
    }

    /// The generation the handle was issued under.
    pub closed spec fn spec_gen(&self) -> usize {
        self.generation
    }

    pub fn new(index: usize, generation: usize) -> (r: Self)
        ensures
            r.spec_idx() == index,
            r.spec_gen() == generation,
    {
        Self { index, generation, _ty: PhantomData }
    }

    #[verifier::when_used_as_spec(spec_idx)]
    #[inline]
    pub fn index(&self) -> (r: usize)
        ensures
            r == self.spec_idx(),
    {
        self.index
    }

    #[verifier::when_used_as_spec(spec_gen)]
    #[inline]
    pub fn gen(&self) -> (r: usize)
        ensures
            r == self.spec_gen(),
    {
        self.generation
    }
}

impl<T> Clone for ArenaIdx<T> {
    #[inline]
    fn clone(&self) -> (r: Self)
        ensures
            r == *self,
    {
        *self
    }
}

impl<T> Copy for ArenaIdx<T> {

}

/// An arena allocator over a growable vector of cells. Freed cells are
/// chained into an intrusive free list and reused before the storage
/// grows.
pub struct Arena<T> {
    cells: Vec<ArenaCell<T>>,
    freed: Option<usize>,
    num: usize,
    /// The free-list chain, spelled out as the sequence of slot indices
    /// reached by following `next` links from `freed`. Ghost bookkeeping
    /// only; it has no run-time representation.
    free_list: Ghost<Seq<usize>>,
}

impl<T> Arena<T> {
    /// The slot storage as a mathematical sequence.
    pub closed spec fn slots(&self) -> Seq<ArenaCell<T>> {
        self.cells@
    }

    /// The index of the most recently freed slot, if any slot is free.
    pub closed spec fn free_head(&self) -> Option<usize> {
        self.freed
    }

    /// How many slots the storage currently holds, live or free.
    pub open spec fn slot_count(&self) -> nat {
        self.slots().len()
    }

    /// Whether slot `i` currently holds a value.
    pub open spec fn live_at(&self, i: int) -> bool {
        0 <= i < self.slot_count() && self.slots()[i].is_live()
    }

    /// The generation currently recorded in slot `i`.
    pub open spec fn gen_at(&self, i: int) -> usize
        recommends
            0 <= i < self.slot_count(),
    {
        self.slots()[i].generation()
    }

    /// The value stored in slot `i`; meaningful only when the slot is live.
    pub open spec fn value_at(&self, i: int) -> T
        recommends
            self.live_at(i),
    {
        self.slots()[i].value()
    }

    /// A handle is valid iff its slot index is in range, the slot is
    /// live, and the slot's generation equals the handle's generation.
    pub open spec fn valid(&self, h: ArenaIdx<T>) -> bool {
        &&& h.spec_idx() < self.slot_count()
        &&& self.live_at(h.spec_idx() as int)
        &&& self.gen_at(h.spec_idx() as int) == h.spec_gen()
    }

    /// What a lookup of `h` observes: the stored value when `h` is valid,
    /// nothing otherwise.
    pub open spec fn lookup(&self, h: ArenaIdx<T>) -> Option<T> {
        if self.valid(h) {
            Some(self.value_at(h.spec_idx() as int))
        } else {
            None
        }
    }

    /// The internal invariant: `freed` heads the ghost free-list chain,
    /// the chain links in-range free cells, lists no cell twice and lists
    /// every free cell, and `num` counts the live cells.
    pub closed spec fn wf(&self) -> bool {
        wf_parts(self.cells@, self.freed, self.free_list@, self.num)
    }

    /// No slot's generation ever decreases, and storage never shrinks.
    pub open spec fn gens_le(&self, other: Self) -> bool {
        &&& self.slot_count() <= other.slot_count()
        &&& forall|i: int|
            0 <= i < self.slot_count() ==> self.gen_at(i) <= #[trigger] other.gen_at(i)
    }

    /// How an insertion of `v` turns `pre` into `post`, yielding handle `h`:
    /// the head of the free list is claimed if there is one, keeping the
    /// generation the slot already carried; otherwise a fresh slot with
    /// generation 0 is appended.
    pub open spec fn insert_effect(pre: Self, post: Self, h: ArenaIdx<T>, v: T) -> bool {
        match pre.free_head() {
            Some(i) => {
                &&& h.spec_idx() == i
                &&& h.spec_gen() == pre.gen_at(i as int)
                &&& post.slots() == pre.slots().update(
                    i as int,
                    ArenaCell::Allocated { val: v, generation: h.spec_gen() },
                )
                &&& post.free_head() == pre.slots()[i as int].next_free()
            },
            None => {
                &&& h.spec_idx() == pre.slot_count()
                &&& h.spec_gen() == 0
                &&& post.slots() == pre.slots().push(
                    ArenaCell::Allocated { val: v, generation: 0 },
                )
                &&& post.free_head() is None
            },
        }
    }

    /// How removal through `h` turns `pre` into `post`: if `h` is valid its
    /// slot becomes free with the generation bumped by one and is pushed as
    /// the new free-list head; a stale or free handle changes nothing.
    pub open spec fn remove_effect(pre: Self, post: Self, h: ArenaIdx<T>) -> bool {
        if pre.valid(h) {
            &&& post.slots() == pre.slots().update(
                h.spec_idx() as int,
                ArenaCell::Freed {
                    next: pre.free_head(),
                    generation: (h.spec_gen() + 1) as usize,
                },
            )
            &&& post.free_head() == Some(h.spec_idx())
        } else {
            &&& post.slots() == pre.slots()
            &&& post.free_head() == pre.free_head()
        }
    }

    /// How clearing turns `pre` into `post`: every slot becomes free, live
    /// slots have their generation bumped by one, free slots keep theirs,
    /// and the free list is rebuilt as a forward chain over all slots.
    pub open spec fn clear_effect(pre: Self, post: Self) -> bool {
        &&& post.slot_count() == pre.slot_count()
        &&& forall|i: int|
            0 <= i < pre.slot_count() ==> post.slots()[i] == (ArenaCell::Freed::<T> {
                next: if i + 1 < pre.slot_count() {
                    Some((i + 1) as usize)
                } else {
                    None
                },
                generation: if pre.slots()[i].is_live() {
                    (pre.gen_at(i) + 1) as usize
                } else {
                    pre.gen_at(i)
                },
            })
        &&& post.free_head() == (if pre.slot_count() > 0 {
            Some(0usize)
        } else {
            None::<usize>
        })
    }

    /// Which side of a dual mutable lookup is served: a handle observes its
    /// slot iff it is valid and, when both handles name the same slot, its
    /// generation is strictly the greater (the more recent handle wins).
    pub open spec fn get2_served(pre: Self, h0: ArenaIdx<T>, h1: ArenaIdx<T>, first: bool) -> bool {
        let h = if first {
            h0
        } else {
            h1
        };
        let o = if first {
            h1
        } else {
            h0
        };
        &&& pre.valid(h)
        &&& (h0.spec_idx() == h1.spec_idx() ==> h.spec_gen() > o.spec_gen())
    }

    /// Creates an empty arena.
    pub fn new() -> (r: Self)
        ensures
            r.wf(),
            r.slot_count() == 0,
            r.free_head() is None,
    {
        Self { cells: Vec::new(), freed: None, num: 0, free_list: Ghost(Seq::empty()) }
    }

    /// Creates an empty arena whose storage is pre-allocated for at least
    /// `cap` slots.
    pub fn with_capacity(cap: usize) -> (r: Self)
        ensures
            r.wf(),
            r.slot_count() == 0,
            r.free_head() is None,
    {
        Self {
            cells: Vec::with_capacity(cap),
            freed: None,
            num: 0,
            free_list: Ghost(Seq::empty()),
        }
    }

    /// Pre-grows the backing storage; no logical slot is created, so the
    /// arena's contents are untouched.
    pub fn reserve(&mut self, additional: usize)
        ensures
            final(self).slots() == old(self).slots(),
            final(self).free_head() == old(self).free_head(),
            old(self).wf() ==> final(self).wf(),
            old(self).gens_le(*final(self)),
    {
        self.cells.reserve(additional)
    }

    /// The allocated size of the backing storage; at least the slot count.
    pub fn capacity(&self) -> (c: usize)
        ensures
            c >= self.slot_count(),
    {
        vec_capacity(&self.cells)
    }

    /// The number of live slots, maintained in O(1), never recomputed.
    pub fn num(&self) -> (r: usize)
        requires
            self.wf(),
        ensures
            r == live_count(self.slots()),
    {
        self.num
    }

    /// The generation currently recorded at slot `index`, whether the slot
    /// is live or free.
    pub fn gen(&self, index: usize) -> (g: usize)
        requires
            index < self.slot_count(),
        ensures
            g == self.gen_at(index as int),
    {
        match &self.cells[index] {
            ArenaCell::Freed { generation, .. } => *generation,
            ArenaCell::Allocated { generation, .. } => *generation,
        }
    }

    /// Returns the stored value iff `index` is valid: in range, live, and
    /// of matching generation. A stale handle observes nothing.
    pub fn get(&self, index: ArenaIdx<T>) -> (r: Option<&T>)
        requires
            index.spec_idx() < self.slot_count(),
        ensures
            self.valid(index) ==> r is Some && *r.unwrap() == self.value_at(
                index.spec_idx() as int,
            ),
            !self.valid(index) ==> r is None,
    {
        match &self.cells[index.index()] {
            ArenaCell::Allocated { val, generation } => {
                if *generation == index.gen() {
                    Some(val)
                } else {
                    None
                }
            },
            _ => None,
        }
    }

    /// Frees every slot: live slots get their generation bumped by one,
    /// already-free slots keep theirs, the free list is rebuilt as a
    /// forward chain over all slots, and the live count drops to zero.
    /// Every previously issued handle becomes invalid.
    pub fn clear(&mut self)
        requires
            old(self).wf(),
            forall|i: int|
                0 <= i < old(self).slot_count() && old(self).live_at(i) ==> old(self).gen_at(i)
                    < usize::MAX,
        ensures
            final(self).wf(),
            old(self).gens_le(*final(self)),
            Self::clear_effect(*old(self), *final(self)),
            live_count(final(self).slots()) == 0,
    {
        let ghost s0 = self.cells@;
        let len = self.cells.len();
        proof {
            assert forall|j: int|
                0 <= j < len && s0[j].is_live() implies (#[trigger] s0[j]).generation()
                < usize::MAX by {
                assert(old(self).live_at(j));
                assert(old(self).gen_at(j) == s0[j].generation());
            }
        }
        let mut i: usize = 0;
        while i < len
            invariant
                len == self.cells@.len(),
                s0.len() == len,
                i <= len,
                forall|j: int|
                    0 <= j < len && s0[j].is_live() ==> (#[trigger] s0[j]).generation()
                        < usize::MAX,
                forall|j: int|
                    0 <= j < i ==> self.cells@[j] == (ArenaCell::Freed::<T> {
                        next: if j + 1 < len {
                            Some((j + 1) as usize)
                        } else {
                            None
                        },
                        generation: if s0[j].is_live() {
                            (s0[j].generation() + 1) as usize
                        } else {
                            s0[j].generation()
                        },
                    }),
                forall|j: int| i <= j < len ==> self.cells@[j] == s0[j],
            decreases len - i,
        {
            let new_cell = match &self.cells[i] {
                ArenaCell::Allocated { generation, .. } => ArenaCell::Freed {
                    generation: *generation + 1,
                    next: if i < len - 1 {
                        Some(i + 1)
                    } else {
                        None
                    },
                },
                ArenaCell::Freed { generation, .. } => ArenaCell::Freed {
                    generation: *generation,
                    next: if i < len - 1 {
                        Some(i + 1)
                    } else {
                        None
                    },
                },
            };
            self.cells[i] = new_cell;
            i = i + 1;
        }
        self.num = 0;
        self.freed = if len > 0 {
            Some(0)
        } else {
            None
        };
        self.free_list = Ghost(Seq::new(len as nat, |k: int| k as usize));
        proof {
            let s1 = self.cells@;
            let fl1 = self.free_list@;
            assert(forall|j: int| 0 <= j < len ==> !(#[trigger] s1[j]).is_live());
            lemma_live_count_zero(s1);
            assert forall|j: int|
                0 <= j < s1.len() && !(#[trigger] s1[j]).is_live() implies fl1.contains(
                j as usize,
            ) by {
                assert(fl1[j] == j as usize);
            }
        }
    }

    /// Tries to insert `val` without assuming the free list is consistent:
    /// a free-list head that does not name a free cell hands `val` back as
    /// `Err`. Under the arena invariant that never happens, so insertion
    /// always succeeds, claiming the free-list head if there is one and
    /// growing the storage otherwise.
    pub fn try_insert(&mut self, val: T) -> (r: Result<ArenaIdx<T>, T>)
        requires
            old(self).wf(),
        ensures
            final(self).wf(),
            old(self).gens_le(*final(self)),
            live_count(final(self).slots()) == live_count(old(self).slots()) + 1,
            r matches Ok(h) && Self::insert_effect(*old(self), *final(self), h, val),
    {
        match self.freed {
            Some(i) => {
                let ghost s0 = self.cells@;
                let ghost fl0 = self.free_list@;
                proof {
                    assert(fl0.len() > 0);
                    assert(fl0[0] == i);
                    assert(fl0[0] < s0.len());
                    assert(!s0[i as int].is_live());
                    lemma_live_count_lt(s0, i as int);
                }
                let (next, generation) = match &self.cells[i] {
                    ArenaCell::Freed { next, generation } => (*next, *generation),
                    _ => {
                        return Err(val);
                    },
                };
                self.freed = next;
                self.cells[i] = ArenaCell::Allocated { val, generation };
                let slot_total = self.cells.len();
                proof {
                    assert(self.num < slot_total);
                }
                self.num = self.num + 1;
                self.free_list = Ghost(fl0.subrange(1, fl0.len() as int));
                proof {
                    let fl1 = self.free_list@;
                    let s1 = self.cells@;
                    lemma_live_count_update(s0, i as int, s1[i as int]);
                    assert forall|k: int| 0 <= k < fl1.len() implies {
                        &&& (#[trigger] fl1[k]) < s1.len()
                        &&& !s1[fl1[k] as int].is_live()
                        &&& s1[fl1[k] as int].next_free() == (if k + 1 < fl1.len() {
                            Some(fl1[k + 1])
                        } else {
                            None::<usize>
                        })
                    } by {
                        assert(fl1[k] == fl0[k + 1]);
                        assert(fl0[k + 1] != fl0[0]);
                    }
                    assert forall|j: int|
                        0 <= j < s1.len() && !(#[trigger] s1[j]).is_live() implies fl1.contains(
                        j as usize,
                    ) by {
                        assert(s0[j] == s1[j]);
                        assert(fl0.contains(j as usize));
                        let k = choose|k: int| 0 <= k < fl0.len() && fl0[k] == j as usize;
                        assert(k != 0);
                        assert(fl1[k - 1] == j as usize);
                    }
                }
                Ok(ArenaIdx::new(i, generation))
            },
            None => {
                let ghost s0 = self.cells@;
                proof {
                    lemma_live_count_le(s0);
                }
                let idx = self.cells.len();
                self.cells.push(ArenaCell::Allocated { generation: 0, val });
                let slot_total = self.cells.len();
                proof {
                    assert(self.num < slot_total);
                }
                self.num = self.num + 1;
                proof {
                    let s1 = self.cells@;
                    lemma_live_count_push(s0, s1[idx as int]);
                    assert(self.free_list@.len() == 0);
                }
                Ok(ArenaIdx::new(idx, 0))
            },
        }
    }

    /// Inserts `val`, growing the storage if no slot is free, and returns
    /// the handle under which the value can be retrieved. A freed slot is
    /// always reused before the storage grows.
    #[must_use]
    pub fn insert(&mut self, val: T) -> (h: ArenaIdx<T>)
        requires
            old(self).wf(),
        ensures
            final(self).wf(),
            old(self).gens_le(*final(self)),
            live_count(final(self).slots()) == live_count(old(self).slots()) + 1,
            Self::insert_effect(*old(self), *final(self), h, val),
    {
        match self.try_insert(val) {
            Ok(index) => index,
            Err(_val) => vstd::pervasive::unreached(),
        }
    }

    /// Removes the value named by `index`, if `index` is valid: the slot
    /// becomes free with its generation bumped and heads the free list. A
    /// stale or already-free handle removes nothing.
    pub fn remove(&mut self, index: ArenaIdx<T>)
        requires
            old(self).wf(),
            index.spec_idx() < old(self).slot_count(),
            old(self).valid(index) ==> index.spec_gen() < usize::MAX,
        ensures
            final(self).wf(),
            old(self).gens_le(*final(self)),
            Self::remove_effect(*old(self), *final(self), index),
    {
        let i = index.index();
        let gen_matches = match &self.cells[i] {
            ArenaCell::Allocated { generation, .. } => *generation == index.gen(),
            _ => false,
        };
        if gen_matches {
            let ghost s0 = self.cells@;
            let ghost fl0 = self.free_list@;
            proof {
                lemma_live_count_pos(s0, i as int);
            }
            self.cells[i] = ArenaCell::Freed { next: self.freed, generation: index.gen() + 1 };
            self.num = self.num - 1;
            self.freed = Some(i);
            self.free_list = Ghost(seq![i].add(fl0));
            proof {
                let fl1 = self.free_list@;
                let s1 = self.cells@;
                lemma_live_count_update(s0, i as int, s1[i as int]);
                assert forall|k: int| 0 <= k < fl1.len() implies {
                    &&& (#[trigger] fl1[k]) < s1.len()
                    &&& !s1[fl1[k] as int].is_live()
                    &&& s1[fl1[k] as int].next_free() == (if k + 1 < fl1.len() {
                        Some(fl1[k + 1])
                    } else {
                        None::<usize>
                    })
                } by {
                    if k > 0 {
                        assert(fl1[k] == fl0[k - 1]);
                        assert(!s0[fl0[k - 1] as int].is_live());
                        assert(fl0[k - 1] != i);
                    }
                }
                assert forall|k1: int, k2: int| 0 <= k1 < k2 < fl1.len() implies fl1[k1]
                    != fl1[k2] by {
                    if k1 == 0 {
                        assert(!s0[fl0[k2 - 1] as int].is_live());
                        assert(fl0[k2 - 1] != i);
                    }
                }
                assert forall|j: int|
                    0 <= j < s1.len() && !(#[trigger] s1[j]).is_live() implies fl1.contains(
                    j as usize,
                ) by {
                    if j == i {
                        assert(fl1[0] == i);
                    } else {
                        assert(s0[j] == s1[j]);
                        assert(fl0.contains(j as usize));
                        let k = choose|k: int| 0 <= k < fl0.len() && fl0[k] == j as usize;
                        assert(fl1[k + 1] == j as usize);
                    }
                }
            }
        }
    }

    /// Returns the value occupying slot `index` regardless of generation:
    /// the explicitly unchecked escape hatch.
    pub fn get_any(&self, index: usize) -> (r: Option<&T>)
        requires
            index < self.slot_count(),
        ensures
            self.live_at(index as int) ==> r is Some && *r.unwrap() == self.value_at(
                index as int,
            ),
            !self.live_at(index as int) ==> r is None,
    {
        match &self.cells[index] {
            ArenaCell::Allocated { val, .. } => Some(val),
            _ => None,
        }
    }

    /// Looks up several handles at once: one independent lookup per handle,
    /// results in the order the handles were given.
    pub fn getn(&self, indices: &Vec<ArenaIdx<T>>) -> (r: Vec<Option<&T>>)
        requires
            forall|k: int|
                0 <= k < indices@.len() ==> (#[trigger] indices@[k]).spec_idx()
                    < self.slot_count(),
        ensures
            r@.len() == indices@.len(),
            forall|k: int|
                0 <= k < indices@.len() ==> {
                    &&& (self.valid(indices@[k]) ==> (#[trigger] r@[k]) is Some && *r@[
                        k
                    ].unwrap() == self.value_at(indices@[k].spec_idx() as int))
                    &&& (!self.valid(indices@[k]) ==> r@[k] is None)
                },
    {
        let mut ret: Vec<Option<&T>> = Vec::new();
        let n = indices.len();
        let mut k: usize = 0;
        while k < n
            invariant
                n == indices@.len(),
                k <= n,
                ret@.len() == k,
                forall|j: int|
                    0 <= j < n ==> (#[trigger] indices@[j]).spec_idx() < self.slot_count(),
                forall|j: int|
                    0 <= j < k ==> {
                        &&& (self.valid(indices@[j]) ==> (#[trigger] ret@[j]) is Some && *ret@[
                            j
                        ].unwrap() == self.value_at(indices@[j].spec_idx() as int))
                        &&& (!self.valid(indices@[j]) ==> ret@[j] is None)
                    },
            decreases n - k,
        {
            let h = indices[k];
            ret.push(self.get(h));
            k = k + 1;
        }
        ret
    }

    /// Returns exclusive access to the value named by `index` iff `index`
    /// is valid; only the stored value can change through the returned
    /// reference, never the slot's generation or the free list.
    pub fn get_mut(&mut self, index: ArenaIdx<T>) -> (r: Option<&mut T>)
        requires
            index.spec_idx() < old(self).slot_count(),
        ensures
            old(self).valid(index) ==> {
                &&& r is Some
                &&& *r.unwrap() == old(self).value_at(index.spec_idx() as int)
                &&& final(self).slots() == old(self).slots().update(
                    index.spec_idx() as int,
                    ArenaCell::Allocated {
                        val: *final(r.unwrap()),
                        generation: index.spec_gen(),
                    },
                )
            },
            !old(self).valid(index) ==> r is None && final(self).slots() == old(self).slots(),
            final(self).free_head() == old(self).free_head(),
            old(self).wf() ==> final(self).wf(),
            old(self).gens_le(*final(self)),
    {
        let i = index.index();
        let ghost s0 = self.cells@;
        let is_valid = match &self.cells[i] {
            ArenaCell::Allocated { generation, .. } => *generation == index.gen(),
            _ => false,
        };
        if is_valid {
            proof {
                if self.wf() {
                    lemma_wf_parts_value_update(
                        s0,
                        self.freed,
                        self.free_list@,
                        self.num,
                        i as int,
                        index.spec_gen(),
                    );
                }
            }
            match &mut self.cells[i] {
                ArenaCell::Allocated { val, .. } => Some(val),
                _ => None,
            }
        } else {
            proof {
                assert(s0.update(i as int, s0[i as int]) =~= s0);
            }
            None
        }
    }

    /// Returns exclusive access to the value occupying slot `index`
    /// regardless of generation: the unchecked escape hatch.
    pub fn get_any_mut(&mut self, index: usize) -> (r: Option<&mut T>)
        requires
            index < old(self).slot_count(),
        ensures
            old(self).live_at(index as int) ==> {
                &&& r is Some
                &&& *r.unwrap() == old(self).value_at(index as int)
                &&& final(self).slots() == old(self).slots().update(
                    index as int,
                    ArenaCell::Allocated {
                        val: *final(r.unwrap()),
                        generation: old(self).gen_at(index as int),
                    },
                )
            },
            !old(self).live_at(index as int) ==> r is None && final(self).slots() == old(
                self,
            ).slots(),
            final(self).free_head() == old(self).free_head(),
            old(self).wf() ==> final(self).wf(),
            old(self).gens_le(*final(self)),
    {
        let ghost s0 = self.cells@;
        let is_live = match &self.cells[index] {
            ArenaCell::Allocated { .. } => true,
            _ => false,
        };
        if is_live {
            proof {
                if self.wf() {
                    lemma_wf_parts_value_update(
                        s0,
                        self.freed,
                        self.free_list@,
                        self.num,
                        index as int,
                        self.gen_at(index as int),
                    );
                }
            }
            match &mut self.cells[index] {
                ArenaCell::Allocated { val, .. } => Some(val),
                _ => None,
            }
        } else {
            proof {
                assert(s0.update(index as int, s0[index as int]) =~= s0);
            }
            None
        }
    }
    /// Returns exclusive access to two values at once. Handles naming
    /// distinct slots are looked up independently; two handles naming the
    /// same slot cannot both be valid, so the one with the strictly greater
    /// generation is served and the other observes nothing. Two handles
    /// with the same slot and the same generation would alias and are
    /// ruled out.
    pub fn get2_mut(&mut self, indices: (ArenaIdx<T>, ArenaIdx<T>)) -> (r: (
        Option<&mut T>,
        Option<&mut T>,
    ))
        requires
            indices.0.spec_idx() < old(self).slot_count(),
            indices.1.spec_idx() < old(self).slot_count(),
            indices.0.spec_idx() == indices.1.spec_idx() ==> indices.0.spec_gen()
                != indices.1.spec_gen(),
        ensures
            r.0 is Some <==> Self::get2_served(*old(self), indices.0, indices.1, true),
            r.1 is Some <==> Self::get2_served(*old(self), indices.0, indices.1, false),
            r.0 matches Some(v) ==> *v == old(self).value_at(indices.0.spec_idx() as int),
            r.1 matches Some(v) ==> *v == old(self).value_at(indices.1.spec_idx() as int),
            ({
                let s1 = if r.0 is Some {
                    old(self).slots().update(
                        indices.0.spec_idx() as int,
                        ArenaCell::Allocated {
                            val: *final(r.0.unwrap()),
                            generation: indices.0.spec_gen(),
                        },
                    )
                } else {
                    old(self).slots()
                };
                let s2 = if r.1 is Some {
                    s1.update(
                        indices.1.spec_idx() as int,
                        ArenaCell::Allocated {
                            val: *final(r.1.unwrap()),
                            generation: indices.1.spec_gen(),
                        },
                    )
                } else {
                    s1
                };
                final(self).slots() == s2
            }),
            final(self).free_head() == old(self).free_head(),
            old(self).wf() ==> final(self).wf(),
            old(self).gens_le(*final(self)),
    {
        let (h0, h1) = indices;
        let ghost s0 = self.cells@;
        if h0.index() == h1.index() {
            if h0.gen() > h1.gen() {
                let r0 = self.get_mut(h0);
                (r0, None)
            } else {
                let r1 = self.get_mut(h1);
                (None, r1)
            }
        } else {
            let ghost fr0 = self.freed;
            let ghost fl0 = self.free_list@;
            let ghost n0 = self.num;
            let first_lower = h0.index() < h1.index();
            let lo = if first_lower {
                h0.index()
            } else {
                h1.index()
            };
            let hi = if first_lower {
                h1.index()
            } else {
                h0.index()
            };
            let (ca, cb) = two_muts(&mut self.cells, lo, hi);
            let (r0, r1) = if first_lower {
                let r0 = cell_value_mut(ca, h0.gen());
                let r1 = cell_value_mut(cb, h1.gen());
                (r0, r1)
            } else {
                let r1 = cell_value_mut(ca, h1.gen());
                let r0 = cell_value_mut(cb, h0.gen());
                (r0, r1)
            };
            proof {
                let i0 = h0.spec_idx() as int;
                let i1 = h1.spec_idx() as int;
                let served0 = s0[i0].is_live() && s0[i0].generation() == h0.spec_gen();
                let served1 = s0[i1].is_live() && s0[i1].generation() == h1.spec_gen();
                if wf_parts(s0, fr0, fl0, n0) {
                    if served0 && served1 {
                        lemma_wf_parts_value_update2(
                            s0,
                            fr0,
                            fl0,
                            n0,
                            i0,
                            i1,
                            h0.spec_gen(),
                            h1.spec_gen(),
                        );
                    } else if served0 {
                        lemma_wf_parts_value_update(s0, fr0, fl0, n0, i0, h0.spec_gen());
                    } else if served1 {
                        lemma_wf_parts_value_update(s0, fr0, fl0, n0, i1, h1.spec_gen());
                    }
                }
                if served0 && served1 {
                    let c0 = ArenaCell::Allocated {
                        val: *final(r0.unwrap()),
                        generation: h0.spec_gen(),
                    };
                    let c1 = ArenaCell::Allocated {
                        val: *final(r1.unwrap()),
                        generation: h1.spec_gen(),
                    };
                    assert(s0.update(i1, c1).update(i0, c0) =~= s0.update(i0, c0).update(i1, c1));
                } else if served0 {
                    let c0 = ArenaCell::Allocated {
                        val: *final(r0.unwrap()),
                        generation: h0.spec_gen(),
                    };
                    assert(s0.update(i0, c0).update(i1, s0[i1]) =~= s0.update(i0, c0));
                    assert(s0.update(i1, s0[i1]).update(i0, c0) =~= s0.update(i0, c0));
                } else if served1 {
                    let c1 = ArenaCell::Allocated {
                        val: *final(r1.unwrap()),
                        generation: h1.spec_gen(),
                    };
                    assert(s0.update(i0, s0[i0]).update(i1, c1) =~= s0.update(i1, c1));
                    assert(s0.update(i1, c1).update(i0, s0[i0]) =~= s0.update(i1, c1));
                } else {
                    assert(s0.update(i0, s0[i0]).update(i1, s0[i1]) =~= s0);
                    assert(s0.update(i1, s0[i1]).update(i0, s0[i0]) =~= s0);
                }
            }
            (r0, r1)
        }
    }

    /// Returns exclusive access to several values at once: one entry per
    /// handle, in the order the handles were given. Two handles naming the
    /// same slot could alias, so such a request is refused whole and
    /// changes nothing; otherwise each valid handle observes its value,
    /// each stale handle observes nothing, and only the observed values
    /// can change through the returned references.
    pub fn getn_mut(&mut self, indices: &Vec<ArenaIdx<T>>) -> (r: Option<Vec<Option<&mut T>>>)
        requires
            forall|k: int|
                0 <= k < indices@.len() ==> (#[trigger] indices@[k]).spec_idx() < old(
                    self,
                ).slot_count(),
        ensures
            r is Some <==> (forall|k1: int, k2: int|
                0 <= k1 < k2 < indices@.len() ==> indices@[k1].spec_idx()
                    != indices@[k2].spec_idx()),
            r is None ==> final(self).slots() == old(self).slots(),
            r matches Some(out) ==> {
                &&& out@.len() == indices@.len()
                &&& final(self).slots().len() == old(self).slots().len()
                &&& forall|k: int|
                    0 <= k < indices@.len() ==> ((#[trigger] out@[k]) is Some <==> old(
                        self,
                    ).valid(indices@[k]))
                &&& forall|k: int|
                    0 <= k < indices@.len() && old(self).valid(#[trigger] indices@[k]) ==> {
                        &&& *out@[k].unwrap() == old(self).value_at(
                            indices@[k].spec_idx() as int,
                        )
                        &&& final(self).slots()[indices@[k].spec_idx() as int]
                            == (ArenaCell::Allocated {
                            val: *final(out@[k].unwrap()),
                            generation: indices@[k].spec_gen(),
                        })
                    }
                &&& forall|k: int|
                    0 <= k < indices@.len() && !old(self).valid(#[trigger] indices@[k])
                        ==> final(self).slots()[indices@[k].spec_idx() as int] == old(
                        self,
                    ).slots()[indices@[k].spec_idx() as int]
                &&& forall|j: int|
                    0 <= j < old(self).slot_count() && (forall|k: int|
                        0 <= k < indices@.len() ==> (#[trigger] indices@[k]).spec_idx() != j)
                        ==> final(self).slots()[j] == old(self).slots()[j]
            },
            final(self).free_head() == old(self).free_head(),
            old(self).wf() ==> final(self).wf(),
            old(self).gens_le(*final(self)),
    {
        let n = indices.len();
        let mut k1: usize = 0;
        while k1 < n
            invariant
                n == indices@.len(),
                k1 <= n,
                forall|a: int, b: int|
                    0 <= a < b < indices@.len() && a < k1 ==> indices@[a].spec_idx()
                        != indices@[b].spec_idx(),
            decreases n - k1,
        {
            let mut k2: usize = k1 + 1;
            while k2 < n
                invariant
                    n == indices@.len(),
                    k1 < n,
                    k1 < k2 <= n,
                    forall|b: int|
                        k1 < b < k2 ==> indices@[k1 as int].spec_idx() != (#[trigger] indices@[
                            b
                        ]).spec_idx(),
                decreases n - k2,
            {
                if indices[k1].index() == indices[k2].index() {
                    proof {
                        assert(!(forall|a: int, b: int|
                            0 <= a < b < indices@.len() ==> indices@[a].spec_idx() != indices@[
                                b
                            ].spec_idx())) by {
                            assert(indices@[k1 as int].spec_idx() == indices@[
                                k2 as int
                            ].spec_idx());
                        }
                    }
                    return None;
                }
                k2 = k2 + 1;
            }
            k1 = k1 + 1;
        }
        let mut rem: Vec<ArenaIdx<T>> = Vec::new();
        let mut k: usize = 0;
        while k < n
            invariant
                n == indices@.len(),
                k <= n,
                rem@ == indices@.take(k as int),
            decreases n - k,
        {
            rem.push(indices[k]);
            k = k + 1;
        }
        proof {
            assert(rem@ =~= indices@);
        }
        let ghost s0 = self.cells@;
        let ghost fr0 = self.freed;
        let ghost fl0 = self.free_list@;
        let ghost n0 = self.num;
        let slot_total = self.cells.len();
        proof {
            assert(s0.len() == slot_total);
        }
        let slice = self.cells.as_mut_slice();
        let ghost fsl = final(slice)@;
        let out = collect_muts(slice, 0, rem);
        proof {
            assert forall|j: int|
                0 <= j < s0.len() implies ((#[trigger] fsl[j]) == s0[j] || (s0[j].is_live()
                && fsl[j].is_live() && fsl[j].generation() == s0[j].generation())) by {
                if exists|q: int|
                    0 <= q < indices@.len() && (#[trigger] indices@[q]).spec_idx() == j {
                    let q = choose|q: int|
                        0 <= q < indices@.len() && (#[trigger] indices@[q]).spec_idx() == j;
                    if served(s0, 0, indices@[q]) {
                        assert(fsl[j] == (ArenaCell::Allocated {
                            val: *final(out@[q].unwrap()),
                            generation: indices@[q].spec_gen(),
                        }));
                    } else {
                        assert(fsl[j] == s0[j]);
                    }
                } else {
                    assert forall|q: int|
                        0 <= q < indices@.len() implies (#[trigger] indices@[q]).spec_idx() - 0
                        != j by {}
                    assert(fsl[j] == s0[j]);
                }
            }
            if wf_parts(s0, fr0, fl0, n0) {
                lemma_wf_parts_liveness_preserved(s0, fsl, fr0, fl0, n0);
            }
            assert forall|k0: int|
                0 <= k0 < indices@.len() implies ((#[trigger] out@[k0]) is Some <==> (
            *old(self)).valid(indices@[k0])) by {
                assert(served(s0, 0, indices@[k0]) <==> old(self).valid(indices@[k0]));
            }
        }
        Some(out)
    }

    /// Scans for the first live slot at or after `from`.
    fn next_live_index(&self, from: usize) -> (r: Option<usize>)
        ensures
            match r {
                Some(i) => next_live(self.slots(), from as int) == Some(i as int),
                None => next_live(self.slots(), from as int) is None,
            },
    {
        let n = self.cells.len();
        let mut i = from;
        while i < n
            invariant
                n == self.slot_count(),
                from <= i,
                next_live(self.slots(), from as int) == next_live(self.slots(), i as int),
            decreases n - i,
        {
            let live = match &self.cells[i] {
                ArenaCell::Allocated { .. } => true,
                _ => false,
            };
            if live {
                return Some(i);
            }
            i = i + 1;
        }
        None
    }

    /// A cursor over the live slots, yielding `(handle, value)` pairs in
    /// increasing slot order.
    #[inline]
    pub fn iter(&self) -> (r: Iter)
        ensures
            r.spec_pos() == 0,
    {
        Iter { pos: 0 }
    }

    /// A cursor over the live slots, yielding the stored values in
    /// increasing slot order.
    #[inline]
    pub fn values(&self) -> (r: ValueIter)
        ensures
            r.spec_pos() == 0,
    {
        ValueIter { iter: self.iter() }
    }

    /// A cursor over the live slots, yielding the handles under which the
    /// values are stored, in increasing slot order.
    #[inline]
    pub fn keys(&self) -> (r: KeyIter)
        ensures
            r.spec_pos() == 0,
    {
        KeyIter { iter: self.iter() }
    }

    /// A cursor over the live slots, yielding `(handle, exclusive value)`
    /// pairs in increasing slot order.
    #[inline]
    pub fn iter_mut(&mut self) -> (r: IterMut)
        ensures
            r.spec_pos() == 0,
            *final(self) == *old(self),
    {
        IterMut { pos: 0 }
    }

    /// A cursor over the live slots, yielding exclusive access to the
    /// stored values in increasing slot order.
    #[inline]
    pub fn values_mut(&mut self) -> (r: ValueIterMut)
        ensures
            r.spec_pos() == 0,
            *final(self) == *old(self),
    {
        ValueIterMut { iter: IterMut { pos: 0 } }
    }
}

/// A cursor over the live slots of an arena in increasing slot order.
/// Each step walks the arena it is handed and yields the next live slot's
/// handle and value; free slots are skipped transparently.
pub struct Iter {
    pos: usize,
}

impl Iter {
    /// The slot index the cursor will examine next.
    pub closed spec fn spec_pos(&self) -> usize {
        self.pos
    }

    /// Steps to the next live slot of `arena`, yielding its handle and
    /// value, or nothing once no live slot remains at or after the cursor.
    pub fn next<'a, T>(&mut self, arena: &'a Arena<T>) -> (r: Option<(ArenaIdx<T>, &'a T)>)
        ensures
            match next_live(arena.slots(), old(self).spec_pos() as int) {
                Some(i) => {
                    &&& r matches Some(p)
                    &&& p.0.spec_idx() == i
                    &&& p.0.spec_gen() == arena.gen_at(i)
                    &&& arena.valid(p.0)
                    &&& *p.1 == arena.value_at(i)
                    &&& final(self).spec_pos() == i + 1
                },
                None => r is None && final(self).spec_pos() == old(self).spec_pos(),
            },
    {
        proof {
            lemma_next_live(arena.slots(), self.pos as int);
        }
        let n = arena.cells.len();
        match arena.next_live_index(self.pos) {
            Some(i) => {
                if i < n {
                    self.pos = i + 1;
                    match &arena.cells[i] {
                        ArenaCell::Allocated { val, generation } => {
                            Some((ArenaIdx::new(i, *generation), val))
                        },
                        _ => None,
                    }
                } else {
                    None
                }
            },
            None => None,
        }
    }
}

/// A cursor over the live slots of an arena, yielding the stored values in
/// increasing slot order.
pub struct ValueIter {
    iter: Iter,
}

impl ValueIter {
    /// The slot index the cursor will examine next.
    pub closed spec fn spec_pos(&self) -> usize {
        self.iter.spec_pos()
    }

    /// Steps to the next live slot of `arena`, yielding its value.
    pub fn next<'a, T>(&mut self, arena: &'a Arena<T>) -> (r: Option<&'a T>)
        ensures
            match next_live(arena.slots(), old(self).spec_pos() as int) {
                Some(i) => {
                    &&& r matches Some(v)
                    &&& *v == arena.value_at(i)
                    &&& final(self).spec_pos() == i + 1
                },
                None => r is None && final(self).spec_pos() == old(self).spec_pos(),
            },
    {
        match self.iter.next(arena) {
            Some(p) => Some(p.1),
            None => None,
        }
    }
}

/// A cursor over the live slots of an arena, yielding the handles under
/// which the values are stored, in increasing slot order.
pub struct KeyIter {
    iter: Iter,
}

impl KeyIter {
    /// The slot index the cursor will examine next.
    pub closed spec fn spec_pos(&self) -> usize {
        self.iter.spec_pos()
    }

    /// Steps to the next live slot of `arena`, yielding its handle.
    pub fn next<T>(&mut self, arena: &Arena<T>) -> (r: Option<ArenaIdx<T>>)
        ensures
            match next_live(arena.slots(), old(self).spec_pos() as int) {
                Some(i) => {
                    &&& r matches Some(h)
                    &&& h.spec_idx() == i
                    &&& h.spec_gen() == arena.gen_at(i)
                    &&& arena.valid(h)
                    &&& final(self).spec_pos() == i + 1
                },
                None => r is None && final(self).spec_pos() == old(self).spec_pos(),
            },
    {
        match self.iter.next(arena) {
            Some(p) => Some(p.0),
            None => None,
        }
    }
}

/// A cursor over the live slots of an arena, yielding each slot's handle
/// together with exclusive access to its value, in increasing slot order.
pub struct IterMut {
    pos: usize,
}

impl IterMut {
    /// The slot index the cursor will examine next.
    pub closed spec fn spec_pos(&self) -> usize {
        self.pos
    }

    /// Steps to the next live slot of `arena`, yielding its handle and
    /// exclusive access to its value; only that value can change through
    /// the returned reference.
    pub fn next<'a, T>(&mut self, arena: &'a mut Arena<T>) -> (r: Option<(ArenaIdx<T>, &'a mut T)>)
        ensures
            match next_live(old(arena).slots(), old(self).spec_pos() as int) {
                Some(i) => {
                    &&& r matches Some(p)
                    &&& p.0.spec_idx() == i
                    &&& p.0.spec_gen() == old(arena).gen_at(i)
                    &&& old(arena).valid(p.0)
                    &&& *p.1 == old(arena).value_at(i)
                    &&& final(self).spec_pos() == i + 1
                    &&& final(arena).slots() == old(arena).slots().update(
                        i,
                        ArenaCell::Allocated {
                            val: *final(p.1),
                            generation: old(arena).gen_at(i),
                        },
                    )
                },
                None => {
                    &&& r is None
                    &&& final(self).spec_pos() == old(self).spec_pos()
                    &&& final(arena).slots() == old(arena).slots()
                },
            },
            final(arena).free_head() == old(arena).free_head(),
            old(arena).wf() ==> final(arena).wf(),
            old(arena).gens_le(*final(arena)),
    {
        proof {
            lemma_next_live(arena.slots(), self.pos as int);
        }
        let n = arena.cells.len();
        match arena.next_live_index(self.pos) {
            Some(i) => {
                if i < n {
                    self.pos = i + 1;
                    proof {
                        if arena.wf() {
                            lemma_wf_parts_value_update(
                                arena.cells@,
                                arena.freed,
                                arena.free_list@,
                                arena.num,
                                i as int,
                                arena.gen_at(i as int),
                            );
                        }
                    }
                    match &mut arena.cells[i] {
                        ArenaCell::Allocated { val, generation } => {
                            Some((ArenaIdx::new(i, *generation), val))
                        },
                        _ => None,
                    }
                } else {
                    None
                }
            },
            None => None,
        }
    }
}

/// A cursor over the live slots of an arena, yielding exclusive access to
/// the stored values in increasing slot order.
pub struct ValueIterMut {
    iter: IterMut,
}

impl ValueIterMut {
    /// The slot index the cursor will examine next.
    pub closed spec fn spec_pos(&self) -> usize {
        self.iter.spec_pos()
    }

    /// Steps to the next live slot of `arena`, yielding exclusive access
    /// to its value.
    pub fn next<'a, T>(&mut self, arena: &'a mut Arena<T>) -> (r: Option<&'a mut T>)
        ensures
            match next_live(old(arena).slots(), old(self).spec_pos() as int) {
                Some(i) => {
                    &&& r matches Some(v)
                    &&& *v == old(arena).value_at(i)
                    &&& final(self).spec_pos() == i + 1
                    &&& final(arena).slots() == old(arena).slots().update(
                        i,
                        ArenaCell::Allocated {
                            val: *final(v),
                            generation: old(arena).gen_at(i),
                        },
                    )
                },
                None => {
                    &&& r is None
                    &&& final(self).spec_pos() == old(self).spec_pos()
                    &&& final(arena).slots() == old(arena).slots()
                },
            },
            final(arena).free_head() == old(arena).free_head(),
            old(arena).wf() ==> final(arena).wf(),
            old(arena).gens_le(*final(arena)),
    {
        match self.iter.next(arena) {
            Some(p) => Some(p.1),
            None => None,
        }
    }
}

/// Round trip: immediately after an insertion, the handle the insertion
/// returned is valid and looks up exactly the value that was inserted.
pub proof fn lemma_insert_round_trip<T>(pre: Arena<T>, post: Arena<T>, h: ArenaIdx<T>, v: T)
    requires
        pre.wf(),
        Arena::insert_effect(pre, post, h, v),
    ensures
        post.valid(h),
        post.lookup(h) == Some(v),
{
}

/// Tombstone: removing through a valid handle invalidates it, and it stays
/// invalid in every state the arena can reach afterwards, because slot
/// generations never decrease; in particular no later insertion can issue
/// a handle with both the removed handle's slot index and its generation.
pub proof fn lemma_remove_tombstone<T>(
    pre: Arena<T>,
    mid: Arena<T>,
    later: Arena<T>,
    h: ArenaIdx<T>,
)
    requires
        pre.wf(),
        pre.valid(h),
        h.spec_gen() < usize::MAX,
        Arena::remove_effect(pre, mid, h),
        mid.gens_le(later),
    ensures
        !mid.valid(h),
        mid.lookup(h) == None::<T>,
        !later.valid(h),
        later.lookup(h) == None::<T>,
        forall|post: Arena<T>, h2: ArenaIdx<T>, v: T|
            #[trigger] Arena::insert_effect(later, post, h2, v) && h2.spec_idx() == h.spec_idx()
                ==> h2.spec_gen() != h.spec_gen(),
{
    let i = h.spec_idx() as int;
    assert(mid.gen_at(i) == h.spec_gen() + 1);
    assert(later.gen_at(i) >= h.spec_gen() + 1);
    assert forall|post: Arena<T>, h2: ArenaIdx<T>, v: T|
        #[trigger] Arena::insert_effect(later, post, h2, v) && h2.spec_idx()
            == h.spec_idx() implies h2.spec_gen() != h.spec_gen() by {
        match later.free_head() {
            Some(j) => {
                assert(h2.spec_gen() == later.gen_at(j as int));
            },
            None => {
                assert(h2.spec_idx() == later.slot_count());
            },
        }
    }
}

/// Free-list-first reuse: removing one element and then inserting claims
/// exactly the slot that was just freed, under a generation one greater
/// than the removed handle's, and the storage does not grow.
pub proof fn lemma_freed_slot_reused<T>(
    pre: Arena<T>,
    mid: Arena<T>,
    post: Arena<T>,
    h: ArenaIdx<T>,
    h2: ArenaIdx<T>,
    v: T,
)
    requires
        pre.wf(),
        pre.valid(h),
        h.spec_gen() < usize::MAX,
        Arena::remove_effect(pre, mid, h),
        Arena::insert_effect(mid, post, h2, v),
    ensures
        h2.spec_idx() == h.spec_idx(),
        h2.spec_gen() == h.spec_gen() + 1,
        post.slot_count() == pre.slot_count(),
        post.valid(h2),
        post.lookup(h2) == Some(v),
{
}

/// Disjoint dual mutation: when two valid handles name distinct slots,
/// writing fresh values into both slots (as the dual mutable lookup's
/// contract describes with the final values of its two references) leaves
/// both handles valid, and each observes exactly its own write.
pub proof fn lemma_get2_mut_disjoint_writes<T>(
    pre: Arena<T>,
    post: Arena<T>,
    h0: ArenaIdx<T>,
    h1: ArenaIdx<T>,
    v0: T,
    v1: T,
)
    requires
        pre.valid(h0),
        pre.valid(h1),
        h0.spec_idx() != h1.spec_idx(),
        post.slots() == pre.slots().update(
            h0.spec_idx() as int,
            ArenaCell::Allocated { val: v0, generation: h0.spec_gen() },
        ).update(h1.spec_idx() as int, ArenaCell::Allocated { val: v1, generation: h1.spec_gen() }),
    ensures
        post.valid(h0),
        post.valid(h1),
        post.lookup(h0) == Some(v0),
        post.lookup(h1) == Some(v1),
{
}

/// Same-slot generation race: of two handles that name one slot under
/// different generations, at most one side of a dual mutable lookup is
/// served, and only the side whose generation is strictly the greater.
pub proof fn lemma_get2_mut_same_slot<T>(pre: Arena<T>, h0: ArenaIdx<T>, h1: ArenaIdx<T>)
    requires
        h0.spec_idx() == h1.spec_idx(),
        h0.spec_gen() != h1.spec_gen(),
    ensures
        !(Arena::get2_served(pre, h0, h1, true) && Arena::get2_served(pre, h0, h1, false)),
        Arena::get2_served(pre, h0, h1, true) ==> h0.spec_gen() > h1.spec_gen(),
        Arena::get2_served(pre, h0, h1, false) ==> h1.spec_gen() > h0.spec_gen(),
{
}

/// At most one handle per slot is valid at a time: two valid handles that
/// name the same slot carry the same generation, so together with the live
/// count (`num` equals the number of live slots) the arena holds exactly
/// one valid handle per counted entry.
pub proof fn lemma_one_valid_handle_per_slot<T>(a: Arena<T>, h1: ArenaIdx<T>, h2: ArenaIdx<T>)
    requires
        a.valid(h1),
        a.valid(h2),
        h1.spec_idx() == h2.spec_idx(),
    ensures
        h1.spec_gen() == h2.spec_gen(),
        a.lookup(h1) == a.lookup(h2),
{
}

/// Clearing invalidates all: after a clear, no handle whatsoever is valid,
/// every lookup observes nothing, and no slot is live.
pub proof fn lemma_clear_invalidates<T>(pre: Arena<T>, post: Arena<T>, h: ArenaIdx<T>)
    requires
        Arena::clear_effect(pre, post),
    ensures
        !post.valid(h),
        post.lookup(h) == None::<T>,
        live_count(post.slots()) == 0,
{
    assert forall|j: int| 0 <= j < post.slots().len() implies !(#[trigger] post.slots()[j]).is_live() by {
        assert(post.slots()[j] == (ArenaCell::Freed::<T> {
            next: if j + 1 < pre.slot_count() {
                Some((j + 1) as usize)
            } else {
                None
            },
            generation: if pre.slots()[j].is_live() {
                (pre.gen_at(j) + 1) as usize
            } else {
                pre.gen_at(j)
            },
        }));
    }
    lemma_live_count_zero(post.slots());
}

/// Relies on `Vec::capacity` of std: the allocated capacity is at least
/// the vector's length.
#[verifier::external_body]
pub(crate) fn vec_capacity<T>(v: &Vec<T>) -> (c: usize)
    ensures
        c >= v@.len(),
{
    v.capacity()
}

/// The arena invariant, spelled out over the components of an arena.
pub(crate) open spec fn wf_parts<T>(
    s: Seq<ArenaCell<T>>,
    freed: Option<usize>,
    fl: Seq<usize>,
    num: usize,
) -> bool {
    &&& freed == (if fl.len() == 0 {
        None::<usize>
    } else {
        Some(fl[0])
    })
    &&& forall|k: int| 0 <= k < fl.len() ==> (#[trigger] fl[k]) < s.len()
    &&& forall|k: int| 0 <= k < fl.len() ==> !(#[trigger] s[fl[k] as int]).is_live()
    &&& forall|k: int|
        0 <= k < fl.len() ==> (#[trigger] s[fl[k] as int]).next_free() == (if k + 1 < fl.len() {
            Some(fl[k + 1])
        } else {
            None::<usize>
        })
    &&& forall|k1: int, k2: int| 0 <= k1 < k2 < fl.len() ==> fl[k1] != fl[k2]
    &&& forall|i: int|
        0 <= i < s.len() && !(#[trigger] s[i]).is_live() ==> fl.contains(i as usize)
    &&& num == live_count(s)
}

/// Overwriting the value of a live slot, keeping its generation, preserves
/// the arena invariant whatever the new value is.
pub(crate) proof fn lemma_wf_parts_value_update<T>(
    s: Seq<ArenaCell<T>>,
    freed: Option<usize>,
    fl: Seq<usize>,
    num: usize,
    i: int,
    g: usize,
)
    requires
        wf_parts(s, freed, fl, num),
        0 <= i < s.len(),
        s[i].is_live(),
        g == s[i].generation(),
    ensures
        forall|v: T|
            wf_parts(s.update(i, ArenaCell::Allocated { val: v, generation: g }), freed, fl, num),
{
    assert forall|v: T|
        wf_parts(
            s.update(i, ArenaCell::Allocated { val: v, generation: g }),
            freed,
            fl,
            num,
        ) by {
        let s1 = s.update(i, ArenaCell::Allocated { val: v, generation: g });
        lemma_live_count_update(s, i, s1[i]);
        assert forall|k: int| 0 <= k < fl.len() implies {
            &&& !(#[trigger] s1[fl[k] as int]).is_live()
            &&& s1[fl[k] as int].next_free() == (if k + 1 < fl.len() {
                Some(fl[k + 1])
            } else {
                None::<usize>
            })
        } by {
            assert(fl[k] != i);
            assert(s1[fl[k] as int] == s[fl[k] as int]);
        }
        assert forall|j: int|
            0 <= j < s1.len() && !(#[trigger] s1[j]).is_live() implies fl.contains(j as usize) by {
            assert(j != i);
            assert(s1[j] == s[j]);
        }
    }
}

/// Overwriting the values of two distinct live slots, keeping their
/// generations, preserves the arena invariant whatever the new values are.
pub(crate) proof fn lemma_wf_parts_value_update2<T>(
    s: Seq<ArenaCell<T>>,
    freed: Option<usize>,
    fl: Seq<usize>,
    num: usize,
    i0: int,
    i1: int,
    g0: usize,
    g1: usize,
)
    requires
        wf_parts(s, freed, fl, num),
        0 <= i0 < s.len(),
        0 <= i1 < s.len(),
        i0 != i1,
        s[i0].is_live(),
        s[i1].is_live(),
        g0 == s[i0].generation(),
        g1 == s[i1].generation(),
    ensures
        forall|v0: T, v1: T|
            wf_parts(
                s.update(i0, ArenaCell::Allocated { val: v0, generation: g0 }).update(
                    i1,
                    ArenaCell::Allocated { val: v1, generation: g1 },
                ),
                freed,
                fl,
                num,
            ),
{
    assert forall|v0: T, v1: T|
        wf_parts(
            s.update(i0, ArenaCell::Allocated { val: v0, generation: g0 }).update(
                i1,
                ArenaCell::Allocated { val: v1, generation: g1 },
            ),
            freed,
            fl,
            num,
        ) by {
        lemma_wf_parts_value_update(s, freed, fl, num, i0, g0);
        let s1 = s.update(i0, ArenaCell::Allocated { val: v0, generation: g0 });
        assert(wf_parts(s1, freed, fl, num));
        assert(s1[i1] == s[i1]);
        lemma_wf_parts_value_update(s1, freed, fl, num, i1, g1);
    }
}

/// Two slot sequences with pointwise equal liveness hold equally many
/// live slots.
proof fn lemma_live_count_pointwise<T>(a: Seq<ArenaCell<T>>, b: Seq<ArenaCell<T>>)
    requires
        a.len() == b.len(),
        forall|j: int| 0 <= j < a.len() ==> a[j].is_live() == (#[trigger] b[j]).is_live(),
    ensures
        live_count(a) == live_count(b),
    decreases a.len(),
{
    if a.len() > 0 {
        lemma_live_count_pointwise(a.drop_last(), b.drop_last());
    }
}

/// A sequence that differs from a well-formed arena's slots only in the
/// values of live slots, keeping each slot's state and generation,
/// satisfies the same invariant.
proof fn lemma_wf_parts_liveness_preserved<T>(
    s: Seq<ArenaCell<T>>,
    s1: Seq<ArenaCell<T>>,
    freed: Option<usize>,
    fl: Seq<usize>,
    num: usize,
)
    requires
        wf_parts(s, freed, fl, num),
        s1.len() == s.len(),
        forall|j: int|
            0 <= j < s.len() ==> ((#[trigger] s1[j]) == s[j] || (s[j].is_live()
                && s1[j].is_live() && s1[j].generation() == s[j].generation())),
    ensures
        wf_parts(s1, freed, fl, num),
{
    lemma_live_count_pointwise(s, s1);
    assert forall|k: int| 0 <= k < fl.len() implies {
        &&& !(#[trigger] s1[fl[k] as int]).is_live()
        &&& s1[fl[k] as int].next_free() == (if k + 1 < fl.len() {
            Some(fl[k + 1])
        } else {
            None::<usize>
        })
    } by {
        assert(!s[fl[k] as int].is_live());
        assert(s1[fl[k] as int] == s[fl[k] as int]);
    }
    assert forall|j: int|
        0 <= j < s1.len() && !(#[trigger] s1[j]).is_live() implies fl.contains(j as usize) by {
        assert(s1[j] == s[j]);
    }
}

/// Carves two exclusive references to distinct cells out of one vector,
/// the rest of the vector staying as it was.
pub(crate) fn two_muts<T>(cells: &mut Vec<ArenaCell<T>>, lo: usize, hi: usize) -> (r: (
    &mut ArenaCell<T>,
    &mut ArenaCell<T>,
))
    requires
        lo < hi < old(cells)@.len(),
    ensures
        *r.0 == old(cells)@[lo as int],
        *r.1 == old(cells)@[hi as int],
        final(cells)@ == old(cells)@.update(lo as int, *final(r.0)).update(
            hi as int,
            *final(r.1),
        ),
{
    let ghost s0 = cells@;
    let slice = cells.as_mut_slice();
    let (left, right) = slice.split_at_mut(hi);
    let (_, l2) = left.split_at_mut(lo);
    let a = match l2.first_mut() {
        Some(x) => x,
        None => vstd::pervasive::unreached(),
    };
    let b = match right.first_mut() {
        Some(x) => x,
        None => vstd::pervasive::unreached(),
    };
    proof {
        assert((s0.subrange(0, lo as int) + s0.subrange(lo as int, hi as int).update(
            0,
            *final(a),
        )) + s0.subrange(hi as int, s0.len() as int).update(0, *final(b)) =~= s0.update(
            lo as int,
            *final(a),
        ).update(hi as int, *final(b)));
    }
    (a, b)
}

/// Opens a cell for writing: the stored value is handed out exactly when
/// the cell is live under the expected generation, and only that value can
/// change through the returned reference.
pub(crate) fn cell_value_mut<T>(cell: &mut ArenaCell<T>, generation: usize) -> (r: Option<&mut T>)
    ensures
        (old(cell).is_live() && old(cell).generation() == generation) ==> {
            &&& r is Some
            &&& *r.unwrap() == old(cell).value()
            &&& *final(cell) == (ArenaCell::Allocated {
                val: *final(r.unwrap()),
                generation,
            })
        },
        !(old(cell).is_live() && old(cell).generation() == generation) ==> r is None
            && *final(cell) == *old(cell),
{
    match cell {
        ArenaCell::Allocated { val, generation: g } => {
            if *g == generation {
                Some(val)
            } else {
                None
            }
        },
        _ => None,
    }
}

/// Splits one cell out of the slice: everything left of `off` stays
/// untouched, the cell at `off` is opened for writing under the expected
/// generation, and the rest of the slice is handed back for further work.
fn collect_step<'a, T>(slice: &'a mut [ArenaCell<T>], off: usize, generation: usize) -> (r: (
    Option<&'a mut T>,
    &'a mut [ArenaCell<T>],
))
    requires
        off < old(slice)@.len(),
    ensures
        r.1@ == old(slice)@.subrange(off as int + 1, old(slice)@.len() as int),
        ({
            let c = old(slice)@[off as int];
            let opened = c.is_live() && c.generation() == generation;
            let cfv = if opened {
                ArenaCell::Allocated { val: *final(r.0.unwrap()), generation }
            } else {
                c
            };
            &&& final(slice)@ == old(slice)@.subrange(0, off as int) + seq![cfv] + final(r.1)@
            &&& (opened ==> r.0 is Some && *r.0.unwrap() == c.value())
            &&& (!opened ==> r.0 is None)
        }),
{
    let ghost s0 = slice@;
    let ghost fs = final(slice)@;
    let (left, right) = slice.split_at_mut(off);
    let ghost l0 = left@;
    let ghost fleft = final(left)@;
    let ghost fright = final(right)@;
    let (cell_part, rest) = right.split_at_mut(1);
    let ghost c0 = cell_part@;
    let ghost fcell = final(cell_part)@;
    let ghost frest = final(rest)@;
    let cell = match cell_part.first_mut() {
        Some(c) => c,
        None => vstd::pervasive::unreached(),
    };
    let ghost cf = *final(cell);
    let rv = cell_value_mut(cell, generation);
    proof {
        assert(l0 =~= s0.subrange(0, off as int));
        assert(c0 =~= s0.subrange(off as int, off as int + 1));
        assert(fleft == l0);
        assert(fcell == c0.update(0, cf));
        assert(fcell =~= seq![cf]);
        assert(fs == fleft + fright);
        assert(fright == fcell + frest);
        assert(fs == l0 + seq![cf] + frest) by {
            assert(fs =~= l0 + seq![cf] + frest);
        }
    }
    (rv, rest)
}

/// Dropping the minimal entry from a batch of distinct in-range handles
/// leaves distinct handles that all lie strictly beyond the minimal slot;
/// every kept position maps back to its place in the full batch.
proof fn lemma_remove_entry<T>(
    rem: Seq<ArenaIdx<T>>,
    rem2: Seq<ArenaIdx<T>>,
    m_min: int,
    base: int,
    len: int,
)
    requires
        0 <= m_min < rem.len(),
        rem2 == rem.remove(m_min),
        forall|m: int| 0 <= m < rem.len() ==> base <= (#[trigger] rem[m]).spec_idx() < base + len,
        forall|m1: int, m2: int|
            0 <= m1 < m2 < rem.len() ==> rem[m1].spec_idx() != rem[m2].spec_idx(),
        forall|m: int|
            0 <= m < rem.len() ==> rem[m_min].spec_idx() <= (#[trigger] rem[m]).spec_idx(),
    ensures
        rem2.len() == rem.len() - 1,
        forall|m: int|
            0 <= m < rem2.len() ==> rem[m_min].spec_idx() + 1 <= (#[trigger] rem2[
                m
            ]).spec_idx() < base + len,
        forall|m1: int, m2: int|
            0 <= m1 < m2 < rem2.len() ==> rem2[m1].spec_idx() != rem2[m2].spec_idx(),
        forall|m: int|
            0 <= m < rem2.len() ==> (#[trigger] rem2[m]) == rem[if m < m_min {
                m
            } else {
                m + 1
            }],
{
    assert forall|m: int|
        0 <= m < rem2.len() implies (#[trigger] rem2[m]) == rem[if m < m_min {
        m
    } else {
        m + 1
    }] by {
        if m < m_min {
            assert(rem2[m] == rem[m]);
        } else {
            assert(rem2[m] == rem[m + 1]);
        }
    }
    assert forall|m: int|
        0 <= m < rem2.len() implies rem[m_min].spec_idx() + 1 <= (#[trigger] rem2[
        m
    ]).spec_idx() < base + len by {
        let q = if m < m_min {
            m
        } else {
            m + 1
        };
        assert(rem2[m] == rem[q]);
        assert(rem[q].spec_idx() != rem[m_min].spec_idx());
    }
    assert forall|m1: int, m2: int|
        0 <= m1 < m2 < rem2.len() implies rem2[m1].spec_idx() != rem2[m2].spec_idx() by {
        let q1 = if m1 < m_min {
            m1
        } else {
            m1 + 1
        };
        let q2 = if m2 < m_min {
            m2
        } else {
            m2 + 1
        };
        assert(rem2[m1] == rem[q1]);
        assert(rem2[m2] == rem[q2]);
    }
}

/// Whether the handle `h` names, within the slice that starts at global
/// slot `base`, a live cell whose generation matches the handle's.
spec fn served<T>(s: Seq<ArenaCell<T>>, base: int, h: ArenaIdx<T>) -> bool {
    &&& base <= h.spec_idx() < base + s.len()
    &&& s[h.spec_idx() - base].is_live()
    &&& s[h.spec_idx() - base].generation() == h.spec_gen()
}

/// Opens one exclusive value reference per handle in `rem`, walking the
/// slice in increasing slot order; the result aligns with `rem`, carrying
/// a reference exactly where the handle names a live cell of matching
/// generation. The handles must name pairwise distinct in-range slots.
#[verifier::rlimit(100)]
fn collect_muts<'a, T>(
    slice: &'a mut [ArenaCell<T>],
    base: usize,
    rem: Vec<ArenaIdx<T>>,
) -> (out: Vec<Option<&'a mut T>>)
    requires
        base + old(slice)@.len() <= usize::MAX,
        forall|m: int|
            0 <= m < rem@.len() ==> base <= (#[trigger] rem@[m]).spec_idx() < base + old(
                slice,
            )@.len(),
        forall|m1: int, m2: int|
            0 <= m1 < m2 < rem@.len() ==> rem@[m1].spec_idx() != rem@[m2].spec_idx(),
    ensures
        out@.len() == rem@.len(),
        final(slice)@.len() == old(slice)@.len(),
        forall|q: int|
            0 <= q < rem@.len() ==> ((#[trigger] out@[q]) is Some <==> served(
                old(slice)@,
                base as int,
                rem@[q],
            )),
        forall|q: int|
            0 <= q < rem@.len() && served(old(slice)@, base as int, (#[trigger] rem@[q])) ==> {
                &&& *out@[q].unwrap() == old(slice)@[rem@[q].spec_idx() - base].value()
                &&& final(slice)@[rem@[q].spec_idx() - base] == (ArenaCell::Allocated {
                    val: *final(out@[q].unwrap()),
                    generation: rem@[q].spec_gen(),
                })
            },
        forall|q: int|
            0 <= q < rem@.len() && !served(old(slice)@, base as int, (#[trigger] rem@[q]))
                ==> final(slice)@[rem@[q].spec_idx() - base] == old(slice)@[rem@[q].spec_idx()
                - base],
        forall|j: int|
            0 <= j < old(slice)@.len() && (forall|q: int|
                0 <= q < rem@.len() ==> (#[trigger] rem@[q]).spec_idx() - base != j)
                ==> final(slice)@[j] == old(slice)@[j],
    decreases rem@.len(),
{
    let ghost s0 = slice@;
    let ghost rem0 = rem@;
    if rem.len() == 0 {
        Vec::new()
    } else {
        // Pick the handle with the smallest slot index; everything else
        // lies strictly to its right.
        let mut m_min: usize = 0;
        let mut k: usize = 1;
        while k < rem.len()
            invariant
                0 < rem@.len(),
                m_min < k <= rem@.len(),
                forall|m: int|
                    0 <= m < k ==> rem@[m_min as int].spec_idx() <= (#[trigger] rem@[
                        m
                    ]).spec_idx(),
            decreases rem@.len() - k,
        {
            if rem[k].index() < rem[m_min].index() {
                m_min = k;
            }
            k = k + 1;
        }
        let h = rem[m_min];
        let off = h.index() - base;
        let mut rem2 = rem;
        rem2.remove(m_min);
        proof {
            lemma_remove_entry(rem0, rem2@, m_min as int, base as int, s0.len() as int);
        }
        let ghost fs = final(slice)@;
        let (rv, rest) = collect_step(slice, off, h.gen());
        let ghost rest0 = rest@;
        let ghost frest = final(rest)@;
        let mut out = collect_muts(rest, base + off + 1, rem2);
        let ghost out2 = out@;
        out.insert(m_min, rv);
        proof {
            let outv = out@;
            let basei = base as int;
            let offi = off as int;
            let mm = m_min as int;
            assert(rest0 == s0.subrange(offi + 1, s0.len() as int));
            assert(frest.len() == rest0.len());
            assert(fs.len() == s0.len());
            assert forall|j: int| 0 <= j < offi implies fs[j] == s0[j] by {
                assert(fs[j] == s0.subrange(0, offi)[j]);
            }
            assert forall|j: int| offi < j < s0.len() implies fs[j] == frest[j - offi - 1] by {}
            assert(served(s0, basei, h) <==> (s0[offi].is_live() && s0[offi].generation()
                == h.spec_gen()));
            assert forall|q: int| 0 <= q < outv.len() implies outv[q] == (if q < mm {
                out2[q]
            } else if q == mm {
                rv
            } else {
                out2[q - 1]
            }) by {
                assert(outv == out2.insert(mm, rv));
            }
            assert forall|q: int|
                0 <= q < rem0.len() && q != mm implies {
                &&& served(s0, basei, rem0[q]) <==> served(rest0, basei + offi + 1, rem0[q])
                &&& rem0[q].spec_idx() - basei > offi
                &&& rest0[rem0[q].spec_idx() - (basei + offi + 1)] == s0[rem0[q].spec_idx()
                    - basei]
                &&& fs[rem0[q].spec_idx() - basei] == frest[rem0[q].spec_idx() - (basei + offi
                    + 1)]
                &&& rem2@[if q < mm {
                    q
                } else {
                    q - 1
                }] == rem0[q]
            } by {
                let m = if q < mm {
                    q
                } else {
                    q - 1
                };
                assert(rem2@[m] == rem0[q]);
                assert(basei + offi + 1 <= rem2@[m].spec_idx());
            }
            assert forall|j: int|
                0 <= j < s0.len() && (forall|q: int|
                    0 <= q < rem0.len() ==> (#[trigger] rem0[q]).spec_idx() - basei != j)
                    implies fs[j] == s0[j] by {
                if j == offi {
                    assert(rem0[mm].spec_idx() - basei == offi);
                } else if j > offi {
                    assert forall|m: int|
                        0 <= m < rem2@.len() implies (#[trigger] rem2@[m]).spec_idx() - (basei
                        + offi + 1) != j - offi - 1 by {
                        let q = if m < mm {
                            m
                        } else {
                            m + 1
                        };
                        assert(rem2@[m] == rem0[q]);
                        assert(rem0[q].spec_idx() - basei != j);
                    }
                    assert(frest[j - offi - 1] == rest0[j - offi - 1]);
                }
            }
        }
        out
    }
}

pub proof fn lemma_live_count_le<T>(s: Seq<ArenaCell<T>>)
    ensures
        live_count(s) <= s.len(),
    decreases s.len(),
{
    if s.len() > 0 {
        lemma_live_count_le(s.drop_last());
    }
}

pub proof fn lemma_live_count_push<T>(s: Seq<ArenaCell<T>>, c: ArenaCell<T>)
    ensures
        live_count(s.push(c)) == live_count(s) + if c.is_live() {
            1nat
        } else {
            0nat
        },
{
    assert(s.push(c).drop_last() =~= s);
}

pub proof fn lemma_live_count_update<T>(s: Seq<ArenaCell<T>>, i: int, c: ArenaCell<T>)
    requires
        0 <= i < s.len(),
    ensures
        live_count(s.update(i, c)) + (if s[i].is_live() {
            1nat
        } else {
            0nat
        }) == live_count(s) + (if c.is_live() {
            1nat
        } else {
            0nat
        }),
    decreases s.len(),
{
    let su = s.update(i, c);
    if i == s.len() - 1 {
        assert(su.drop_last() =~= s.drop_last());
        assert(su.last() == c);
    } else {
        assert(su.drop_last() =~= s.drop_last().update(i, c));
        assert(su.last() == s.last());
        lemma_live_count_update(s.drop_last(), i, c);
    }
}

pub proof fn lemma_live_count_lt<T>(s: Seq<ArenaCell<T>>, i: int)
    requires
        0 <= i < s.len(),
        !s[i].is_live(),
    ensures
        live_count(s) < s.len(),
    decreases s.len(),
{
    if i == s.len() - 1 {
        lemma_live_count_le(s.drop_last());
    } else {
        lemma_live_count_lt(s.drop_last(), i);
    }
}

pub proof fn lemma_live_count_pos<T>(s: Seq<ArenaCell<T>>, i: int)
    requires
        0 <= i < s.len(),
        s[i].is_live(),
    ensures
        live_count(s) >= 1,
    decreases s.len(),
{
    if i < s.len() - 1 {
        lemma_live_count_pos(s.drop_last(), i);
    }
}

pub proof fn lemma_live_count_zero<T>(s: Seq<ArenaCell<T>>)
    requires
        forall|i: int| 0 <= i < s.len() ==> !(#[trigger] s[i]).is_live(),
    ensures
        live_count(s) == 0,
    decreases s.len(),
{
    if s.len() > 0 {
        lemma_live_count_zero(s.drop_last());
    }
}

pub proof fn lemma_live_count_full<T>(s: Seq<ArenaCell<T>>)
    requires
        forall|i: int| 0 <= i < s.len() ==> (#[trigger] s[i]).is_live(),
    ensures
        live_count(s) == s.len(),
    decreases s.len(),
{
    if s.len() > 0 {
        lemma_live_count_full(s.drop_last());
    }
}

} // verus!

