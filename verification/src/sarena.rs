//! The fixed-capacity arena: the same cell and handle model as the
//! growable arena, but the backing storage holds exactly `N` slots,
//! allocated once at construction and pre-chained into one free list.
//! Insertion can only claim a free slot; when all slots are live the
//! value is handed back to the caller.
//!
//! Every mutation, insertion included, takes exclusive access to the
//! container: although the block of slots never moves once built,
//! claiming a slot still rewires the free list and the live count, and
//! the proofs here account for each of those writes.

use vstd::prelude::*;
use core::marker::PhantomData;
use crate::arena::ArenaCell;
use crate::arena::live_count;
use crate::arena::next_live;
use crate::arena::lemma_next_live;
use crate::arena::lemma_live_count_le;
use crate::arena::lemma_live_count_lt;
use crate::arena::lemma_live_count_pos;
use crate::arena::lemma_live_count_zero;
use crate::arena::lemma_live_count_full;
use crate::arena::lemma_live_count_update;
use crate::arena::wf_parts;
use crate::arena::lemma_wf_parts_value_update;
use crate::arena::lemma_wf_parts_value_update2;
use crate::arena::two_muts;
use crate::arena::cell_value_mut;

verus! {

/// A handle into an [`SArena`]: a slot index paired with the generation
/// the slot carried when the handle was issued. The phantom tag ties a
/// handle to the element type of the arena it came from; it carries no
/// run-time state and does not take part in equality.
#[derive(Debug, PartialEq, Eq)]
pub struct SArenaIdx<T> {
    index: usize,
    generation: usize,
    _ty: PhantomData<T>,
}

impl<T> SArenaIdx<T> {
    /// The slot index the handle refers to.
    pub closed spec fn spec_idx(&self) -> usize {
        self.index
    }

    /// The generation the handle was issued under.
    pub closed spec fn spec_gen(&self) -> usize {
        self.generation
    }

    pub fn new(index: usize, generation: usize) -> (r: Self)
        ensures
            r.spec_idx() == index,
            r.spec_gen() == generation,
    {
        Self { index, generation, _ty: PhantomData }
    }

    #[verifier::when_used_as_spec(spec_idx)]
    #[inline]
    pub fn index(&self) -> (r: usize)
        ensures
            r == self.spec_idx(),
    {
        self.index
    }

    #[verifier::when_used_as_spec(spec_gen)]
    #[inline]
    pub fn gen(&self) -> (r: usize)
        ensures
            r == self.spec_gen(),
    {
        self.generation
    }
}

impl<T> Clone for SArenaIdx<T> {
    #[inline]
    fn clone(&self) -> (r: Self)
        ensures
            r == *self,
    {
        *self
    }
}

impl<T> Copy for SArenaIdx<T> {

}

/// An arena allocator over a block of exactly `N` slots, allocated once
/// at construction and never grown. Freed slots are chained into an
/// intrusive free list; insertion claims the head of that list or fails.
pub struct SArena<T, const N: usize> {
    cells: Vec<ArenaCell<T>>,
    freed: Option<usize>,
    num: usize,
    /// The free-list chain, spelled out as the sequence of slot indices
    /// reached by following `next` links from `freed`. Ghost bookkeeping
    /// only; it has no run-time representation.
    free_list: Ghost<Seq<usize>>,
}

impl<T, const N: usize> SArena<T, N> {
    /// The slot storage as a mathematical sequence.
    pub closed spec fn slots(&self) -> Seq<ArenaCell<T>> {
        self.cells@
    }

    /// The index of the most recently freed slot, if any slot is free.
    pub closed spec fn free_head(&self) -> Option<usize> {
        self.freed
    }

    /// How many slots the storage holds; always exactly `N` for a
    /// well-formed fixed-capacity arena.
    pub open spec fn slot_count(&self) -> nat {
        self.slots().len()
    }

    /// Whether slot `i` currently holds a value.
    pub open spec fn live_at(&self, i: int) -> bool {
        0 <= i < self.slot_count() && self.slots()[i].is_live()
    }

    /// The generation currently recorded in slot `i`.
    pub open spec fn gen_at(&self, i: int) -> usize
        recommends
            0 <= i < self.slot_count(),
    {
        self.slots()[i].generation()
    }

    /// The value stored in slot `i`; meaningful only when the slot is live.
    pub open spec fn value_at(&self, i: int) -> T
        recommends
            self.live_at(i),
    {
        self.slots()[i].value()
    }

    /// A handle is valid iff its slot index is in range, the slot is
    /// live, and the slot's generation equals the handle's generation.
    pub open spec fn valid(&self, h: SArenaIdx<T>) -> bool {
        &&& h.spec_idx() < self.slot_count()
        &&& self.live_at(h.spec_idx() as int)
        &&& self.gen_at(h.spec_idx() as int) == h.spec_gen()
    }

    /// What a lookup of `h` observes: the stored value when `h` is valid,
    /// nothing otherwise.
    pub open spec fn lookup(&self, h: SArenaIdx<T>) -> Option<T> {
        if self.valid(h) {
            Some(self.value_at(h.spec_idx() as int))
        } else {
            None
        }
    }

    /// The internal invariant: exactly `N` slots, `freed` heads the ghost
    /// free-list chain, the chain links in-range free cells, lists no cell
    /// twice and lists every free cell, and `num` counts the live cells.
    pub closed spec fn wf(&self) -> bool {
        &&& self.cells@.len() == N
        &&& wf_parts(self.cells@, self.freed, self.free_list@, self.num)
    }

    /// No slot's generation ever decreases.
    pub open spec fn gens_le(&self, other: Self) -> bool {
        &&& self.slot_count() <= other.slot_count()
        &&& forall|i: int|
            0 <= i < self.slot_count() ==> self.gen_at(i) <= #[trigger] other.gen_at(i)
    }

    /// How an insertion of `v` turns `pre` into `post`, yielding handle
    /// `h`: the head of the free list is claimed, keeping the generation
    /// the slot already carried. With no free slot there is no insertion.
    pub open spec fn insert_effect(pre: Self, post: Self, h: SArenaIdx<T>, v: T) -> bool {
        &&& pre.free_head() matches Some(i)
        &&& h.spec_idx() == pre.free_head().unwrap()
        &&& h.spec_gen() == pre.gen_at(h.spec_idx() as int)
        &&& post.slots() == pre.slots().update(
            h.spec_idx() as int,
            ArenaCell::Allocated { val: v, generation: h.spec_gen() },
        )
        &&& post.free_head() == pre.slots()[h.spec_idx() as int].next_free()
    }

    /// How removal through `h` turns `pre` into `post`: if `h` is valid
    /// its slot becomes free with the generation bumped by one and is
    /// pushed as the new free-list head; a stale or free handle changes
    /// nothing.
    pub open spec fn remove_effect(pre: Self, post: Self, h: SArenaIdx<T>) -> bool {
        if pre.valid(h) {
            &&& post.slots() == pre.slots().update(
                h.spec_idx() as int,
                ArenaCell::Freed {
                    next: pre.free_head(),
                    generation: (h.spec_gen() + 1) as usize,
                },
            )
            &&& post.free_head() == Some(h.spec_idx())
        } else {
            &&& post.slots() == pre.slots()
            &&& post.free_head() == pre.free_head()
        }
    }

    /// Which side of a dual mutable lookup is served: a handle observes
    /// its slot iff it is valid and, when both handles name the same slot,
    /// its generation is strictly the greater.
    pub open spec fn get2_served(pre: Self, h0: SArenaIdx<T>, h1: SArenaIdx<T>, first: bool) -> bool {
        let h = if first {
            h0
        } else {
            h1
        };
        let o = if first {
            h1
        } else {
            h0
        };
        &&& pre.valid(h)
        &&& (h0.spec_idx() == h1.spec_idx() ==> h.spec_gen() > o.spec_gen())
    }

    /// Creates an arena of `N` free slots, each at generation 0, with the
    /// free list pre-chained forward: slot `i` links to slot `i + 1`, the
    /// last slot links to nothing.
    pub fn new() -> (r: Self)
        ensures
            r.wf(),
            r.slot_count() == N,
            live_count(r.slots()) == 0,
            forall|i: int| 0 <= i < N ==> !(#[trigger] r.slots()[i]).is_live(),
            forall|i: int| 0 <= i < N ==> (#[trigger] r.slots()[i]).generation() == 0,
            forall|i: int|
                0 <= i < N ==> (#[trigger] r.slots()[i]).next_free() == (if i + 1 < N {
                    Some((i + 1) as usize)
                } else {
                    None::<usize>
                }),
            r.free_head() == (if N > 0 {
                Some(0usize)
            } else {
                None::<usize>
            }),
    {
        let mut cells: Vec<ArenaCell<T>> = Vec::new();
        let mut i: usize = 0;
        while i < N
            invariant
                i <= N,
                cells@.len() == i,
                forall|j: int|
                    0 <= j < i ==> cells@[j] == (ArenaCell::Freed::<T> {
                        next: if j + 1 < N {
                            Some((j + 1) as usize)
                        } else {
                            None
                        },
                        generation: 0,
                    }),
            decreases N - i,
        {
            cells.push(
                ArenaCell::Freed {
                    next: if i + 1 < N {
                        Some(i + 1)
                    } else {
                        None
                    },
                    generation: 0,
                },
            );
            i = i + 1;
        }
        let r = Self {
            cells,
            freed: if N > 0 {
                Some(0)
            } else {
                None
            },
            num: 0,
            free_list: Ghost(Seq::new(N as nat, |k: int| k as usize)),
        };
        proof {
            let s1 = r.cells@;
            let fl1 = r.free_list@;
            assert(forall|j: int| 0 <= j < N ==> !(#[trigger] s1[j]).is_live());
            lemma_live_count_zero(s1);
            assert forall|j: int|
                0 <= j < s1.len() && !(#[trigger] s1[j]).is_live() implies fl1.contains(
                j as usize,
            ) by {
                assert(fl1[j] == j as usize);
            }
        }
        r
    }

    /// Tries to insert `val`: the head of the free list is claimed if one
    /// exists; with every slot live (the arena is full) the value is
    /// handed back unclaimed as `Err`, so the caller can retry or fall
    /// back. Succeeds if and only if some slot is free.
    pub fn try_insert(&mut self, val: T) -> (r: Result<SArenaIdx<T>, T>)
        requires
            old(self).wf(),
        ensures
            final(self).wf(),
            old(self).gens_le(*final(self)),
            final(self).slot_count() == old(self).slot_count(),
            r is Ok <==> live_count(old(self).slots()) < N,
            r is Ok ==> live_count(final(self).slots()) == live_count(old(self).slots()) + 1,
            r matches Ok(h) ==> h.spec_idx() < old(self).slot_count() && Self::insert_effect(
                *old(self),
                *final(self),
                h,
                val,
            ),
            r matches Err(v) ==> v == val && final(self).slots() == old(self).slots()
                && final(self).free_head() == old(self).free_head(),
    {
        match self.freed {
            Some(i) => {
                let ghost s0 = self.cells@;
                let ghost fl0 = self.free_list@;
                proof {
                    assert(fl0.len() > 0);
                    assert(fl0[0] == i);
                    assert(fl0[0] < s0.len());
                    assert(!s0[i as int].is_live());
                    lemma_live_count_lt(s0, i as int);
                }
                let (next, generation) = match &self.cells[i] {
                    ArenaCell::Freed { next, generation } => (*next, *generation),
                    _ => {
                        return Err(val);
                    },
                };
                self.freed = next;
                self.cells[i] = ArenaCell::Allocated { val, generation };
                self.num = self.num + 1;
                self.free_list = Ghost(fl0.subrange(1, fl0.len() as int));
                proof {
                    let fl1 = self.free_list@;
                    let s1 = self.cells@;
                    lemma_live_count_update(s0, i as int, s1[i as int]);
                    assert forall|k: int| 0 <= k < fl1.len() implies {
                        &&& (#[trigger] fl1[k]) < s1.len()
                        &&& !s1[fl1[k] as int].is_live()
                        &&& s1[fl1[k] as int].next_free() == (if k + 1 < fl1.len() {
                            Some(fl1[k + 1])
                        } else {
                            None::<usize>
                        })
                    } by {
                        assert(fl1[k] == fl0[k + 1]);
                        assert(fl0[k + 1] != fl0[0]);
                    }
                    assert forall|j: int|
                        0 <= j < s1.len() && !(#[trigger] s1[j]).is_live() implies fl1.contains(
                        j as usize,
                    ) by {
                        assert(s0[j] == s1[j]);
                        assert(fl0.contains(j as usize));
                        let k = choose|k: int| 0 <= k < fl0.len() && fl0[k] == j as usize;
                        assert(k != 0);
                        assert(fl1[k - 1] == j as usize);
                    }
                }
                Ok(SArenaIdx::new(i, generation))
            },
            None => {
                proof {
                    let s0 = self.cells@;
                    assert(self.free_list@.len() == 0);
                    assert forall|j: int|
                        0 <= j < s0.len() implies (#[trigger] s0[j]).is_live() by {
                        if !s0[j].is_live() {
                            assert(self.free_list@.contains(j as usize));
                        }
                    }
                    lemma_live_count_full(s0);
                }
                Err(val)
            },
        }
    }

    /// Inserts `val`, claiming the head of the free list, and returns the
    /// handle under which the value can be retrieved. The arena must not
    /// be full: a fixed-capacity arena cannot grow.
    #[must_use]
    pub fn insert(&mut self, val: T) -> (h: SArenaIdx<T>)
        requires
            old(self).wf(),
            live_count(old(self).slots()) < N,
        ensures
            final(self).wf(),
            old(self).gens_le(*final(self)),
            final(self).slot_count() == old(self).slot_count(),
            live_count(final(self).slots()) == live_count(old(self).slots()) + 1,
            h.spec_idx() < old(self).slot_count(),
            Self::insert_effect(*old(self), *final(self), h, val),
    {
        match self.try_insert(val) {
            Ok(index) => index,
            Err(_val) => vstd::pervasive::unreached(),
        }
    }

    /// Removes the value named by `index`, if `index` is valid: the slot
    /// becomes free with its generation bumped and heads the free list. A
    /// stale or already-free handle removes nothing.
    pub fn remove(&mut self, index: SArenaIdx<T>)
        requires
            old(self).wf(),
            index.spec_idx() < old(self).slot_count(),
            old(self).valid(index) ==> index.spec_gen() < usize::MAX,
        ensures
            final(self).wf(),
            old(self).gens_le(*final(self)),
            Self::remove_effect(*old(self), *final(self), index),
    {
        let i = index.index();
        let gen_matches = match &self.cells[i] {
            ArenaCell::Allocated { generation, .. } => *generation == index.gen(),
            _ => false,
        };
        if gen_matches {
            let ghost s0 = self.cells@;
            let ghost fl0 = self.free_list@;
            proof {
                lemma_live_count_pos(s0, i as int);
            }
            self.cells[i] = ArenaCell::Freed { next: self.freed, generation: index.gen() + 1 };
            self.num = self.num - 1;
            self.freed = Some(i);
            self.free_list = Ghost(seq![i].add(fl0));
            proof {
                let fl1 = self.free_list@;
                let s1 = self.cells@;
                lemma_live_count_update(s0, i as int, s1[i as int]);
                assert forall|k: int| 0 <= k < fl1.len() implies {
                    &&& (#[trigger] fl1[k]) < s1.len()
                    &&& !s1[fl1[k] as int].is_live()
                    &&& s1[fl1[k] as int].next_free() == (if k + 1 < fl1.len() {
                        Some(fl1[k + 1])
                    } else {
                        None::<usize>
                    })
                } by {
                    if k > 0 {
                        assert(fl1[k] == fl0[k - 1]);
                        assert(!s0[fl0[k - 1] as int].is_live());
                        assert(fl0[k - 1] != i);
                    }
                }
                assert forall|k1: int, k2: int| 0 <= k1 < k2 < fl1.len() implies fl1[k1]
                    != fl1[k2] by {
                    if k1 == 0 {
                        assert(!s0[fl0[k2 - 1] as int].is_live());
                        assert(fl0[k2 - 1] != i);
                    }
                }
                assert forall|j: int|
                    0 <= j < s1.len() && !(#[trigger] s1[j]).is_live() implies fl1.contains(
                    j as usize,
                ) by {
                    if j == i {
                        assert(fl1[0] == i);
                    } else {
                        assert(s0[j] == s1[j]);
                        assert(fl0.contains(j as usize));
                        let k = choose|k: int| 0 <= k < fl0.len() && fl0[k] == j as usize;
                        assert(fl1[k + 1] == j as usize);
                    }
                }
            }
        }
    }

    /// The generation currently recorded at slot `index`, whether the slot
    /// is live or free.
    pub fn gen(&self, index: usize) -> (g: usize)
        requires
            index < self.slot_count(),
        ensures
            g == self.gen_at(index as int),
    {
        match &self.cells[index] {
            ArenaCell::Freed { generation, .. } => *generation,
            ArenaCell::Allocated { generation, .. } => *generation,
        }
    }

    /// Returns the stored value iff `index` is valid: in range, live, and
    /// of matching generation. A stale handle observes nothing.
    pub fn get(&self, index: SArenaIdx<T>) -> (r: Option<&T>)
        requires
            index.spec_idx() < self.slot_count(),
        ensures
            self.valid(index) ==> r is Some && *r.unwrap() == self.value_at(
                index.spec_idx() as int,
            ),
            !self.valid(index) ==> r is None,
    {
        match &self.cells[index.index()] {
            ArenaCell::Allocated { val, generation } => {
                if *generation == index.gen() {
                    Some(val)
                } else {
                    None
                }
            },
            _ => None,
        }
    }

    /// Returns the value occupying slot `index` regardless of generation:
    /// the explicitly unchecked escape hatch.
    pub fn get_any(&self, index: usize) -> (r: Option<&T>)
        requires
            index < self.slot_count(),
        ensures
            self.live_at(index as int) ==> r is Some && *r.unwrap() == self.value_at(index as int),
            !self.live_at(index as int) ==> r is None,
    {
        match &self.cells[index] {
            ArenaCell::Allocated { val, .. } => Some(val),
            _ => None,
        }
    }

    /// Looks up several handles at once: one independent lookup per handle,
    /// results in the order the handles were given.
    pub fn getn(&self, indices: &Vec<SArenaIdx<T>>) -> (r: Vec<Option<&T>>)
        requires
            forall|k: int|
                0 <= k < indices@.len() ==> (#[trigger] indices@[k]).spec_idx()
                    < self.slot_count(),
        ensures
            r@.len() == indices@.len(),
            forall|k: int|
                0 <= k < indices@.len() ==> {
                    &&& (self.valid(indices@[k]) ==> (#[trigger] r@[k]) is Some && *r@[
                        k
                    ].unwrap() == self.value_at(indices@[k].spec_idx() as int))
                    &&& (!self.valid(indices@[k]) ==> r@[k] is None)
                },
    {
        let mut ret: Vec<Option<&T>> = Vec::new();
        let n = indices.len();
        let mut k: usize = 0;
        while k < n
            invariant
                n == indices@.len(),
                k <= n,
                ret@.len() == k,
                forall|j: int|
                    0 <= j < n ==> (#[trigger] indices@[j]).spec_idx() < self.slot_count(),
                forall|j: int|
                    0 <= j < k ==> {
                        &&& (self.valid(indices@[j]) ==> (#[trigger] ret@[j]) is Some && *ret@[
                            j
                        ].unwrap() == self.value_at(indices@[j].spec_idx() as int))
                        &&& (!self.valid(indices@[j]) ==> ret@[j] is None)
                    },
            decreases n - k,
        {
            let h = indices[k];
            ret.push(self.get(h));
            k = k + 1;
        }
        ret
    }

    /// Returns exclusive access to the value named by `index` iff `index`
    /// is valid; only the stored value can change through the returned
    /// reference, never the slot's generation or the free list.
    pub fn get_mut(&mut self, index: SArenaIdx<T>) -> (r: Option<&mut T>)
        requires
            index.spec_idx() < old(self).slot_count(),
        ensures
            old(self).valid(index) ==> {
                &&& r is Some
                &&& *r.unwrap() == old(self).value_at(index.spec_idx() as int)
                &&& final(self).slots() == old(self).slots().update(
                    index.spec_idx() as int,
                    ArenaCell::Allocated {
                        val: *final(r.unwrap()),
                        generation: index.spec_gen(),
                    },
                )
            },
            !old(self).valid(index) ==> r is None && final(self).slots() == old(self).slots(),
            final(self).free_head() == old(self).free_head(),
            old(self).wf() ==> final(self).wf(),
            old(self).gens_le(*final(self)),
    {
        let i = index.index();
        let ghost s0 = self.cells@;
        let is_valid = match &self.cells[i] {
            ArenaCell::Allocated { generation, .. } => *generation == index.gen(),
            _ => false,
        };
        if is_valid {
            proof {
                if self.wf() {
                    lemma_wf_parts_value_update(
                        s0,
                        self.freed,
                        self.free_list@,
                        self.num,
                        i as int,
                        index.spec_gen(),
                    );
                }
            }
            match &mut self.cells[i] {
                ArenaCell::Allocated { val, .. } => Some(val),
                _ => None,
            }
        } else {
            proof {
                assert(s0.update(i as int, s0[i as int]) =~= s0);
            }
            None
        }
    }

    /// Returns exclusive access to the value occupying slot `index`
    /// regardless of generation: the unchecked escape hatch.
    pub fn get_any_mut(&mut self, index: usize) -> (r: Option<&mut T>)
        requires
            index < old(self).slot_count(),
        ensures
            old(self).live_at(index as int) ==> {
                &&& r is Some
                &&& *r.unwrap() == old(self).value_at(index as int)
                &&& final(self).slots() == old(self).slots().update(
                    index as int,
                    ArenaCell::Allocated {
                        val: *final(r.unwrap()),
                        generation: old(self).gen_at(index as int),
                    },
                )
            },
            !old(self).live_at(index as int) ==> r is None && final(self).slots() == old(
                self,
            ).slots(),
            final(self).free_head() == old(self).free_head(),
            old(self).wf() ==> final(self).wf(),
            old(self).gens_le(*final(self)),
    {
        let ghost s0 = self.cells@;
        let is_live = match &self.cells[index] {
            ArenaCell::Allocated { .. } => true,
            _ => false,
        };
        if is_live {
            proof {
                if self.wf() {
                    lemma_wf_parts_value_update(
                        s0,
                        self.freed,
                        self.free_list@,
                        self.num,
                        index as int,
                        self.gen_at(index as int),
                    );
                }
            }
            match &mut self.cells[index] {
                ArenaCell::Allocated { val, .. } => Some(val),
                _ => None,
            }
        } else {
            proof {
                assert(s0.update(index as int, s0[index as int]) =~= s0);
            }
            None
        }
    }

    /// Returns exclusive access to two values at once. Handles naming
    /// distinct slots are looked up independently; two handles naming the
    /// same slot cannot both be valid, so the one with the strictly
    /// greater generation is served and the other observes nothing. Two
    /// handles with the same slot and the same generation would alias and
    /// are ruled out.
    pub fn get2_mut(&mut self, indices: (SArenaIdx<T>, SArenaIdx<T>)) -> (r: (
        Option<&mut T>,
        Option<&mut T>,
    ))
        requires
            indices.0.spec_idx() < old(self).slot_count(),
            indices.1.spec_idx() < old(self).slot_count(),
            indices.0.spec_idx() == indices.1.spec_idx() ==> indices.0.spec_gen()
                != indices.1.spec_gen(),
        ensures
            r.0 is Some <==> Self::get2_served(*old(self), indices.0, indices.1, true),
            r.1 is Some <==> Self::get2_served(*old(self), indices.0, indices.1, false),
            r.0 matches Some(v) ==> *v == old(self).value_at(indices.0.spec_idx() as int),
            r.1 matches Some(v) ==> *v == old(self).value_at(indices.1.spec_idx() as int),
            ({
                let s1 = if r.0 is Some {
                    old(self).slots().update(
                        indices.0.spec_idx() as int,
                        ArenaCell::Allocated {
                            val: *final(r.0.unwrap()),
                            generation: indices.0.spec_gen(),
                        },
                    )
                } else {
                    old(self).slots()
                };
                let s2 = if r.1 is Some {
                    s1.update(
                        indices.1.spec_idx() as int,
                        ArenaCell::Allocated {
                            val: *final(r.1.unwrap()),
                            generation: indices.1.spec_gen(),
                        },
                    )
                } else {
                    s1
                };
                final(self).slots() == s2
            }),
            final(self).free_head() == old(self).free_head(),
            old(self).wf() ==> final(self).wf(),
            old(self).gens_le(*final(self)),
    {
        let (h0, h1) = indices;
        let ghost s0 = self.cells@;
        if h0.index() == h1.index() {
            if h0.gen() > h1.gen() {
                let r0 = self.get_mut(h0);
                (r0, None)
            } else {
                let r1 = self.get_mut(h1);
                (None, r1)
            }
        } else {
            let ghost fr0 = self.freed;
            let ghost fl0 = self.free_list@;
            let ghost n0 = self.num;
            let first_lower = h0.index() < h1.index();
            let lo = if first_lower {
                h0.index()
            } else {
                h1.index()
            };
            let hi = if first_lower {
                h1.index()
            } else {
                h0.index()
            };
            let (ca, cb) = two_muts(&mut self.cells, lo, hi);
            let (r0, r1) = if first_lower {
                let r0 = cell_value_mut(ca, h0.gen());
                let r1 = cell_value_mut(cb, h1.gen());
                (r0, r1)
            } else {
                let r1 = cell_value_mut(ca, h1.gen());
                let r0 = cell_value_mut(cb, h0.gen());
                (r0, r1)
            };
            proof {
                let i0 = h0.spec_idx() as int;
                let i1 = h1.spec_idx() as int;
                let served0 = s0[i0].is_live() && s0[i0].generation() == h0.spec_gen();
                let served1 = s0[i1].is_live() && s0[i1].generation() == h1.spec_gen();
                if wf_parts(s0, fr0, fl0, n0) {
                    if served0 && served1 {
                        lemma_wf_parts_value_update2(
                            s0,
                            fr0,
                            fl0,
                            n0,
                            i0,
                            i1,
                            h0.spec_gen(),
                            h1.spec_gen(),
                        );
                    } else if served0 {
                        lemma_wf_parts_value_update(s0, fr0, fl0, n0, i0, h0.spec_gen());
                    } else if served1 {
                        lemma_wf_parts_value_update(s0, fr0, fl0, n0, i1, h1.spec_gen());
                    }
                }
                if served0 && served1 {
                    let c0 = ArenaCell::Allocated {
                        val: *final(r0.unwrap()),
                        generation: h0.spec_gen(),
                    };
                    let c1 = ArenaCell::Allocated {
                        val: *final(r1.unwrap()),
                        generation: h1.spec_gen(),
                    };
                    assert(s0.update(i1, c1).update(i0, c0) =~= s0.update(i0, c0).update(i1, c1));
                } else if served0 {
                    let c0 = ArenaCell::Allocated {
                        val: *final(r0.unwrap()),
                        generation: h0.spec_gen(),
                    };
                    assert(s0.update(i0, c0).update(i1, s0[i1]) =~= s0.update(i0, c0));
                    assert(s0.update(i1, s0[i1]).update(i0, c0) =~= s0.update(i0, c0));
                } else if served1 {
                    let c1 = ArenaCell::Allocated {
                        val: *final(r1.unwrap()),
                        generation: h1.spec_gen(),
                    };
                    assert(s0.update(i0, s0[i0]).update(i1, c1) =~= s0.update(i1, c1));
                    assert(s0.update(i1, c1).update(i0, s0[i0]) =~= s0.update(i1, c1));
                } else {
                    assert(s0.update(i0, s0[i0]).update(i1, s0[i1]) =~= s0);
                    assert(s0.update(i1, s0[i1]).update(i0, s0[i0]) =~= s0);
                }
            }
            (r0, r1)
        }
    }

    /// Scans for the first live slot at or after `from`.
    fn next_live_index(&self, from: usize) -> (r: Option<usize>)
        ensures
            match r {
                Some(i) => next_live(self.slots(), from as int) == Some(i as int),
                None => next_live(self.slots(), from as int) is None,
            },
    {
        let n = self.cells.len();
        let mut i = from;
        while i < n
            invariant
                n == self.slot_count(),
                from <= i,
                next_live(self.slots(), from as int) == next_live(self.slots(), i as int),
            decreases n - i,
        {
            let live = match &self.cells[i] {
                ArenaCell::Allocated { .. } => true,
                _ => false,
            };
            if live {
                return Some(i);
            }
            i = i + 1;
        }
        None
    }

    /// A cursor over the live slots, yielding the stored values in
    /// increasing slot order.
    #[inline]
    pub fn iter(&self) -> (r: Iter)
        ensures
            r.spec_pos() == 0,
    {
        Iter { iter: Enumerator { pos: 0 } }
    }

    /// A cursor over the live slots, yielding exclusive access to the
    /// stored values in increasing slot order.
    #[inline]
    pub fn iter_mut(&mut self) -> (r: IterMut)
        ensures
            r.spec_pos() == 0,
            *final(self) == *old(self),
    {
        IterMut { iter: EnumeratorMut { pos: 0 } }
    }

    /// A cursor over the live slots, yielding `(handle, value)` pairs in
    /// increasing slot order.
    #[inline]
    pub fn enumerate(&self) -> (r: Enumerator)
        ensures
            r.spec_pos() == 0,
    {
        Enumerator { pos: 0 }
    }

    /// A cursor over the live slots, yielding `(handle, exclusive value)`
    /// pairs in increasing slot order.
    #[inline]
    pub fn enumerate_mut(&mut self) -> (r: EnumeratorMut)
        ensures
            r.spec_pos() == 0,
            *final(self) == *old(self),
    {
        EnumeratorMut { pos: 0 }
    }

    /// The fixed capacity `N`.
    #[inline]
    pub fn capacity(&self) -> (c: usize)
        ensures
            c == N,
    {
        N
    }

    /// The number of live slots, maintained in O(1), never recomputed;
    /// never more than the capacity `N`.
    pub fn num(&self) -> (r: usize)
        requires
            self.wf(),
        ensures
            r == live_count(self.slots()),
            r <= N,
    {
        proof {
            lemma_live_count_le(self.cells@);
        }
        self.num
    }
}

/// A cursor over the live slots of a fixed-capacity arena in increasing
/// slot order, yielding each slot's handle and value; free slots are
/// skipped transparently.
pub struct Enumerator {
    pos: usize,
}

impl Enumerator {
    /// The slot index the cursor will examine next.
    pub closed spec fn spec_pos(&self) -> usize {
        self.pos
    }

    /// Steps to the next live slot of `arena`, yielding its handle and
    /// value, or nothing once no live slot remains at or after the cursor.
    pub fn next<'a, T, const N: usize>(&mut self, arena: &'a SArena<T, N>) -> (r: Option<
        (SArenaIdx<T>, &'a T),
    >)
        ensures
            match next_live(arena.slots(), old(self).spec_pos() as int) {
                Some(i) => {
                    &&& r matches Some(p)
                    &&& p.0.spec_idx() == i
                    &&& p.0.spec_gen() == arena.gen_at(i)
                    &&& arena.valid(p.0)
                    &&& *p.1 == arena.value_at(i)
                    &&& final(self).spec_pos() == i + 1
                },
                None => r is None && final(self).spec_pos() == old(self).spec_pos(),
            },
    {
        proof {
            lemma_next_live(arena.slots(), self.pos as int);
        }
        let n = arena.cells.len();
        match arena.next_live_index(self.pos) {
            Some(i) => {
                if i < n {
                    self.pos = i + 1;
                    match &arena.cells[i] {
                        ArenaCell::Allocated { val, generation } => {
                            Some((SArenaIdx::new(i, *generation), val))
                        },
                        _ => None,
                    }
                } else {
                    None
                }
            },
            None => None,
        }
    }
}

/// A cursor over the live slots of a fixed-capacity arena, yielding each
/// slot's handle together with exclusive access to its value.
pub struct EnumeratorMut {
    pos: usize,
}

impl EnumeratorMut {
    /// The slot index the cursor will examine next.
    pub closed spec fn spec_pos(&self) -> usize {
        self.pos
    }

    /// Steps to the next live slot of `arena`, yielding its handle and
    /// exclusive access to its value; only that value can change through
    /// the returned reference.
    pub fn next<'a, T, const N: usize>(&mut self, arena: &'a mut SArena<T, N>) -> (r: Option<
        (SArenaIdx<T>, &'a mut T),
    >)
        ensures
            match next_live(old(arena).slots(), old(self).spec_pos() as int) {
                Some(i) => {
                    &&& r matches Some(p)
                    &&& p.0.spec_idx() == i
                    &&& p.0.spec_gen() == old(arena).gen_at(i)
                    &&& old(arena).valid(p.0)
                    &&& *p.1 == old(arena).value_at(i)
                    &&& final(self).spec_pos() == i + 1
                    &&& final(arena).slots() == old(arena).slots().update(
                        i,
                        ArenaCell::Allocated {
                            val: *final(p.1),
                            generation: old(arena).gen_at(i),
                        },
                    )
                },
                None => {
                    &&& r is None
                    &&& final(self).spec_pos() == old(self).spec_pos()
                    &&& final(arena).slots() == old(arena).slots()
                },
            },
            final(arena).free_head() == old(arena).free_head(),
            old(arena).wf() ==> final(arena).wf(),
            old(arena).gens_le(*final(arena)),
    {
        proof {
            lemma_next_live(arena.slots(), self.pos as int);
        }
        let n = arena.cells.len();
        match arena.next_live_index(self.pos) {
            Some(i) => {
                if i < n {
                    self.pos = i + 1;
                    proof {
                        if arena.wf() {
                            lemma_wf_parts_value_update(
                                arena.cells@,
                                arena.freed,
                                arena.free_list@,
                                arena.num,
                                i as int,
                                arena.gen_at(i as int),
                            );
                        }
                    }
                    match &mut arena.cells[i] {
                        ArenaCell::Allocated { val, generation } => {
                            Some((SArenaIdx::new(i, *generation), val))
                        },
                        _ => None,
                    }
                } else {
                    None
                }
            },
            None => None,
        }
    }
}

/// A cursor over the live slots of a fixed-capacity arena, yielding the
/// stored values in increasing slot order.
pub struct Iter {
    iter: Enumerator,
}

impl Iter {
    /// The slot index the cursor will examine next.
    pub closed spec fn spec_pos(&self) -> usize {
        self.iter.spec_pos()
    }

    /// Steps to the next live slot of `arena`, yielding its value.
    pub fn next<'a, T, const N: usize>(&mut self, arena: &'a SArena<T, N>) -> (r: Option<&'a T>)
        ensures
            match next_live(arena.slots(), old(self).spec_pos() as int) {
                Some(i) => {
                    &&& r matches Some(v)
                    &&& *v == arena.value_at(i)
                    &&& final(self).spec_pos() == i + 1
                },
                None => r is None && final(self).spec_pos() == old(self).spec_pos(),
            },
    {
        match self.iter.next(arena) {
            Some(p) => Some(p.1),
            None => None,
        }
    }
}

/// A cursor over the live slots of a fixed-capacity arena, yielding
/// exclusive access to the stored values in increasing slot order.
pub struct IterMut {
    iter: EnumeratorMut,
}

impl IterMut {
    /// The slot index the cursor will examine next.
    pub closed spec fn spec_pos(&self) -> usize {
        self.iter.spec_pos()
    }

    /// Steps to the next live slot of `arena`, yielding exclusive access
    /// to its value.
    pub fn next<'a, T, const N: usize>(&mut self, arena: &'a mut SArena<T, N>) -> (r: Option<
        &'a mut T,
    >)
        ensures
            match next_live(old(arena).slots(), old(self).spec_pos() as int) {
                Some(i) => {
                    &&& r matches Some(v)
                    &&& *v == old(arena).value_at(i)
                    &&& final(self).spec_pos() == i + 1
                    &&& final(arena).slots() == old(arena).slots().update(
                        i,
                        ArenaCell::Allocated {
                            val: *final(v),
                            generation: old(arena).gen_at(i),
                        },
                    )
                },
                None => {
                    &&& r is None
                    &&& final(self).spec_pos() == old(self).spec_pos()
                    &&& final(arena).slots() == old(arena).slots()
                },
            },
            final(arena).free_head() == old(arena).free_head(),
            old(arena).wf() ==> final(arena).wf(),
            old(arena).gens_le(*final(arena)),
    {
        match self.iter.next(arena) {
            Some(p) => Some(p.1),
            None => None,
        }
    }
}

/// Disjoint dual mutation: when two valid handles name distinct slots,
/// writing fresh values into both slots (as the dual mutable lookup's
/// contract describes with the final values of its two references) leaves
/// both handles valid, and each observes exactly its own write.
pub proof fn lemma_sarena_get2_mut_disjoint_writes<T, const N: usize>(
    pre: SArena<T, N>,
    post: SArena<T, N>,
    h0: SArenaIdx<T>,
    h1: SArenaIdx<T>,
    v0: T,
    v1: T,
)
    requires
        pre.valid(h0),
        pre.valid(h1),
        h0.spec_idx() != h1.spec_idx(),
        post.slots() == pre.slots().update(
            h0.spec_idx() as int,
            ArenaCell::Allocated { val: v0, generation: h0.spec_gen() },
        ).update(h1.spec_idx() as int, ArenaCell::Allocated { val: v1, generation: h1.spec_gen() }),
    ensures
        post.valid(h0),
        post.valid(h1),
        post.lookup(h0) == Some(v0),
        post.lookup(h1) == Some(v1),
{
}

/// Round trip: immediately after an insertion, the handle the insertion
/// returned is valid and looks up exactly the value that was inserted.
pub proof fn lemma_sarena_insert_round_trip<T, const N: usize>(
    pre: SArena<T, N>,
    post: SArena<T, N>,
    h: SArenaIdx<T>,
    v: T,
)
    requires
        pre.wf(),
        SArena::insert_effect(pre, post, h, v),
    ensures
        post.valid(h),
        post.lookup(h) == Some(v),
{
}

/// Tombstone: removing through a valid handle invalidates it, and it stays
/// invalid in every state the arena can reach afterwards, because slot
/// generations never decrease; in particular no later insertion can issue
/// a handle with both the removed handle's slot index and its generation.
pub proof fn lemma_sarena_remove_tombstone<T, const N: usize>(
    pre: SArena<T, N>,
    mid: SArena<T, N>,
    later: SArena<T, N>,
    h: SArenaIdx<T>,
)
    requires
        pre.wf(),
        pre.valid(h),
        h.spec_gen() < usize::MAX,
        SArena::remove_effect(pre, mid, h),
        mid.gens_le(later),
    ensures
        !mid.valid(h),
        mid.lookup(h) == None::<T>,
        !later.valid(h),
        later.lookup(h) == None::<T>,
        forall|post: SArena<T, N>, h2: SArenaIdx<T>, v: T|
            #[trigger] SArena::insert_effect(later, post, h2, v) && h2.spec_idx() == h.spec_idx()
                ==> h2.spec_gen() != h.spec_gen(),
{
    let i = h.spec_idx() as int;
    assert(mid.gen_at(i) == h.spec_gen() + 1);
    assert(later.gen_at(i) >= h.spec_gen() + 1);
    assert forall|post: SArena<T, N>, h2: SArenaIdx<T>, v: T|
        #[trigger] SArena::insert_effect(later, post, h2, v) && h2.spec_idx()
            == h.spec_idx() implies h2.spec_gen() != h.spec_gen() by {
        assert(h2.spec_gen() == later.gen_at(h2.spec_idx() as int));
    }
}

/// Free-list-first reuse: removing one element and then inserting claims
/// exactly the slot that was just freed, under a generation one greater
/// than the removed handle's, and the storage does not grow.
pub proof fn lemma_sarena_freed_slot_reused<T, const N: usize>(
    pre: SArena<T, N>,
    mid: SArena<T, N>,
    post: SArena<T, N>,
    h: SArenaIdx<T>,
    h2: SArenaIdx<T>,
    v: T,
)
    requires
        pre.wf(),
        pre.valid(h),
        h.spec_gen() < usize::MAX,
        SArena::remove_effect(pre, mid, h),
        SArena::insert_effect(mid, post, h2, v),
    ensures
        h2.spec_idx() == h.spec_idx(),
        h2.spec_gen() == h.spec_gen() + 1,
        post.slot_count() == pre.slot_count(),
        post.valid(h2),
        post.lookup(h2) == Some(v),
{
}

} // verus!

