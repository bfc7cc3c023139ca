use vstd::prelude::*;

verus! {

/// One slot of a [`FreeList`]: the stored value and, while the slot is free,
/// the index of the next free slot (`-1` ends the free chain).
pub struct FreeItem<T> {
    pub item: T,
    next: i32,
}

/// A growable slab whose slots are recycled through an embedded chain of free
/// slots. Indices handed out by `insert` never move.
pub struct FreeList<T> {
    data: Vec<FreeItem<T>>,
    first_free: i32,
    elements: i32,
    /// The free slots, in the order in which `insert` will reuse them.
    free: Ghost<Seq<int>>,
}

impl<T> FreeList<T> {
    /// Number of slots, live and free.
    pub closed spec fn slots(&self) -> nat {
        self.data@.len()
    }

    /// The free slots, first to be reused first.
    pub closed spec fn free_chain(&self) -> Seq<int> {
        self.free@
    }

    /// The live slots and their values.
    pub closed spec fn view(&self) -> Map<int, T> {
        Map::new(
            |i: int| 0 <= i < self.data@.len() && !self.free@.contains(i),
            |i: int| self.data@[i].item,
        )
    }

    pub closed spec fn wf(&self) -> bool {
        &&& self.data@.len() <= i32::MAX
        &&& self.free@.no_duplicates()
        &&& forall|k: int| 0 <= k < self.free@.len() ==> 0 <= #[trigger] self.free@[k] < self.data@.len()
        &&& self.first_free == (if self.free@.len() == 0 { -1 } else { self.free@[0] })
        &&& forall|k: int|
            0 <= k < self.free@.len() ==> #[trigger] self.data@[self.free@[k]].next == (if k + 1
                < self.free@.len() {
                self.free@[k + 1]
            } else {
                -1
            })
        &&& self.elements == self.data@.len() - self.free@.len()
    }

    /// What a well-formed free list guarantees of its slots: the free ones
    /// are distinct in-range indices, and the live ones are the others.
    pub proof fn lemma_wf(&self)
        requires
            self.wf(),
        ensures
            self.slots() <= i32::MAX,
            self.free_chain().no_duplicates(),
            forall|k: int|
                0 <= k < self.free_chain().len() ==> 0 <= #[trigger] self.free_chain()[k]
                    < self.slots(),
            forall|i: int|
                #[trigger] self@.contains_key(i) <==> (0 <= i < self.slots()
                    && !self.free_chain().contains(i)),
            self.free_chain().len() <= self.slots(),
    {
        let s = Set::new(|i: int| 0 <= i < self.data@.len());
        let f = self.free@.to_set();
        assert(f.subset_of(s));
        vstd::set_lib::lemma_int_range(0, self.data@.len() as int);
        assert(s =~= vstd::set_lib::set_int_range(0, self.data@.len() as int));
        vstd::set_lib::lemma_len_subset(f, s);
        self.free@.unique_seq_to_set();
    }

    /// Distinct live slots are at most as many as the slots that are not free.
    pub proof fn lemma_live_seq_len(&self, s: Seq<int>)
        requires
            self.wf(),
            s.no_duplicates(),
            forall|k: int| 0 <= k < s.len() ==> self@.contains_key(#[trigger] s[k]),
        ensures
            s.len() + self.free_chain().len() <= self.slots(),
    {
        let a = s.to_set();
        let f = self.free@.to_set();
        let range = vstd::set_lib::set_int_range(0, self.data@.len() as int);
        vstd::set_lib::lemma_int_range(0, self.data@.len() as int);
        assert forall|i: int| (a + f).contains(i) implies range.contains(i) by {
            if a.contains(i) {
                let k = choose|k: int| 0 <= k < s.len() && s[k] == i;
                assert(self@.contains_key(s[k]));
            }
        }
        assert(a.disjoint(f)) by {
            assert forall|i: int| a.contains(i) implies !f.contains(i) by {
                let k = choose|k: int| 0 <= k < s.len() && s[k] == i;
                assert(self@.contains_key(s[k]));
            }
        }
        vstd::set_lib::lemma_len_subset(a + f, range);
        s.unique_seq_to_set();
        self.free@.unique_seq_to_set();
        vstd::set_lib::lemma_set_disjoint_lens(a, f);
    }

    /// The live slots are the slots that are not free.
    pub proof fn lemma_len(&self)
        requires
            self.wf(),
        ensures
            self@.dom().finite(),
            self@.dom().len() == self.slots() - self.free_chain().len(),
    {
        let range = vstd::set_lib::set_int_range(0, self.data@.len() as int);
        vstd::set_lib::lemma_int_range(0, self.data@.len() as int);
        let f = self.free@.to_set();
        let d = self@.dom();
        assert(d.subset_of(range));
        vstd::set_lib::lemma_len_subset(d, range);
        assert(f.subset_of(range));
        vstd::set_lib::lemma_len_subset(f, range);
        assert(d.disjoint(f));
        assert(d + f =~= range);
        vstd::set_lib::lemma_set_disjoint_lens(d, f);
        self.free@.unique_seq_to_set();
    }

    pub fn new() -> (r: Self)
        ensures
            r.wf(),
            r@ == Map::<int, T>::empty(),
            r.slots() == 0,
            r.free_chain() == Seq::<int>::empty(),
    {
        let r = FreeList { data: Vec::new(), first_free: -1, elements: 0, free: Ghost(Seq::empty()) };
        assert(r@ =~= Map::<int, T>::empty());
        r
    }

    /// Stores `item` in the first free slot, or in a new slot at the end when
    /// none is free, and returns the slot's index.
    pub fn insert(&mut self, item: T) -> (r: i32)
        requires
            old(self).wf(),
            old(self).free_chain().len() > 0 || old(self).slots() < i32::MAX,
        ensures
            final(self).wf(),
            r >= 0,
            !old(self)@.contains_key(r as int),
            final(self)@ == old(self)@.insert(r as int, item),
            old(self).free_chain().len() > 0 ==> {
                &&& r == old(self).free_chain()[0]
                &&& final(self).free_chain() == old(self).free_chain().drop_first()
                &&& final(self).slots() == old(self).slots()
            },
            old(self).free_chain().len() == 0 ==> {
                &&& r == old(self).slots()
                &&& final(self).free_chain() == old(self).free_chain()
                &&& final(self).slots() == old(self).slots() + 1
            },
    {
        proof {
            self.lemma_wf();
        }
        if self.first_free != -1 {
            let index = self.first_free;
            let ghost f = self.free@;
            assert(f.len() > 0);
            let next = self.data[index as usize].next;
            self.first_free = next;
            self.data.set(index as usize, FreeItem { item, next: -1 });
            self.free = Ghost(f.drop_first());
            self.elements = self.elements + 1;
            proof {
                assert forall|k: int| 0 <= k < self.free@.len() implies #[trigger] self.data@[self.free@[k]].next == (if k + 1 < self.free@.len() {
                    self.free@[k + 1]
                } else {
                    -1
                }) by {
                    assert(self.free@[k] == f[k + 1]);
                    assert(f[k + 1] != f[0]);
                }
                assert forall|i: int| self.free@.contains(i) <==> (i != index && f.contains(i)) by {
                    if f.contains(i) && i != index {
                        let k = choose|k: int| 0 <= k < f.len() && f[k] == i;
                        assert(self.free@[k - 1] == i);
                    }
                    if self.free@.contains(i) {
                        let k = choose|k: int| 0 <= k < self.free@.len() && self.free@[k] == i;
                        assert(f[k + 1] == i);
                    }
                }
                assert(self@ =~= old(self)@.insert(index as int, item));
            }
            index
        } else {
            let index = self.data.len();
            self.data.push(FreeItem { item, next: -1 });
            self.elements = self.elements + 1;
            proof {
                assert forall|i: int| self.free@.contains(i) implies i < index by {
                    let k = choose|k: int| 0 <= k < self.free@.len() && self.free@[k] == i;
                }
                assert(self@ =~= old(self)@.insert(index as int, item));
            }
            index as i32
        }
    }

    /// Whether `insert` can take another value: a slot is free, or a new
    /// slot still gets an `i32` index.
    pub fn has_room(&self) -> (r: bool)
        requires
            self.wf(),
        ensures
            r == (self.free_chain().len() > 0 || self.slots() < i32::MAX),
    {
        self.first_free != -1 || self.data.len() < i32::MAX as usize
    }

    /// Whether `extra` more values fit without reusing a slot, or a slot is
    /// free.
    pub fn has_room_for(&self, extra: i32) -> (r: bool)
        requires
            self.wf(),
            extra >= 0,
        ensures
            r == (self.free_chain().len() > 0 || self.slots() + extra <= i32::MAX),
    {
        self.first_free != -1 || (self.data.len() as i64) + (extra as i64) <= i32::MAX as i64
    }

    /// Number of live slots.
    pub fn elements_count(&self) -> (r: i32)
        requires
            self.wf(),
        ensures
            r == self.slots() - self.free_chain().len(),
    {
        self.elements
    }

    /// Number of slots, live and free.
    pub fn data_len(&self) -> (r: i32)
        requires
            self.wf(),
        ensures
            r == self.slots(),
    {
        self.data.len() as i32
    }

    /// Frees the live slot `n`; it becomes the first to be reused.
    pub fn erase(&mut self, n: i32)
        requires
            old(self).wf(),
            old(self)@.contains_key(n as int),
        ensures
            final(self).wf(),
            final(self)@ == old(self)@.remove(n as int),
            final(self).slots() == old(self).slots(),
            final(self).free_chain() == seq![n as int] + old(self).free_chain(),
    {
        proof {
            self.lemma_wf();
        }
        let ghost f = self.free@;
        let first = self.first_free;
        self.data[n as usize].next = first;
        self.first_free = n;
        self.free = Ghost(seq![n as int] + f);
        self.elements = self.elements - 1;
        proof {
            assert forall|k: int| 0 <= k < self.free@.len() implies #[trigger] self.data@[self.free@[k]].next == (if k + 1 < self.free@.len() {
                self.free@[k + 1]
            } else {
                -1
            }) by {
                if k > 0 {
                    assert(self.free@[k] == f[k - 1]);
                }
            }
            assert(self.free@.no_duplicates()) by {
                assert forall|a: int, b: int| 0 <= a < b < self.free@.len() implies self.free@[a] != self.free@[b] by {
                    if a == 0 {
                        assert(f.contains(self.free@[b]));
                    }
                }
            }
            assert forall|i: int| self.free@.contains(i) <==> (i == n || f.contains(i)) by {
                if f.contains(i) {
                    let k = choose|k: int| 0 <= k < f.len() && f[k] == i;
                    assert(self.free@[k + 1] == i);
                }
                if self.free@.contains(i) && i != n {
                    let k = choose|k: int| 0 <= k < self.free@.len() && self.free@[k] == i;
                    assert(f[k - 1] == i);
                }
                if i == n {
                    assert(self.free@[0] == i);
                }
            }
            assert(self@ =~= old(self)@.remove(n as int));
        }
    }

    /// Drops every slot.
    pub fn clear(&mut self)
        ensures
            final(self).wf(),
            final(self)@ == Map::<int, T>::empty(),
            final(self).slots() == 0,
            final(self).free_chain() == Seq::<int>::empty(),
    {
        self.data.clear();
        self.first_free = -1;
        self.elements = 0;
        self.free = Ghost(Seq::empty());
        assert(self@ =~= Map::<int, T>::empty());
    }

    /// The value in the live slot `i`.
    pub fn get(&self, i: i32) -> (r: &T)
        requires
            self.wf(),
            self@.contains_key(i as int),
        ensures
            *r == self@[i as int],
    {
        &self.data[i as usize].item
    }

    /// Replaces the value in the live slot `i`.
    pub fn set(&mut self, i: i32, item: T)
        requires
            old(self).wf(),
            old(self)@.contains_key(i as int),
        ensures
            final(self).wf(),
            final(self)@ == old(self)@.insert(i as int, item),
            final(self).slots() == old(self).slots(),
            final(self).free_chain() == old(self).free_chain(),
    {
        let next = self.data[i as usize].next;
        self.data.set(i as usize, FreeItem { item, next });
        assert(self@ =~= old(self)@.insert(i as int, item));
    }
}

} // verus!
