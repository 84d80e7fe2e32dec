//! The slot allocator: a growable vector of slots, each either holding a value
//! or linking to the next free slot. The free slots form one singly linked list
//! that starts at `head`; the most recently freed slot is handed out first.
use vstd::prelude::*;
use vstd::set_lib::{lemma_int_range, set_int_range};

use crate::Error;

verus! {

/// A slot of the store: a value, or a link to the next free slot.
enum Cell<T> {
    Just(T),
    Nothing(Option<usize>),
}

impl<T> Cell<T> {
    spec fn value(self) -> Option<T> {
        match self {
            Cell::Just(v) => Some(v),
            Cell::Nothing(_) => None,
        }
    }
}

/// A reference to one slot of an [`Arena`]: the slot's position.
#[derive(Clone, Copy, Debug, PartialEq, Eq, Structural)]
pub struct Handle(pub usize);

/// A flat store of values addressed by [`Handle`]s.
pub struct Arena<T> {
    data: Vec<Cell<T>>,
    head: Option<usize>,
    len: usize,
    /// The free slots, in the order in which the free list links them.
    free: Ghost<Seq<usize>>,
}

/// The link that the free slot at position `i` of `free` must hold.
pub open spec fn next_link(free: Seq<usize>, i: int) -> Option<usize> {
    if i + 1 < free.len() {
        Some(free[i + 1])
    } else {
        None
    }
}

impl<T> Arena<T> {
    /// What each slot holds: `Some(value)` when occupied, `None` when free.
    pub closed spec fn view(&self) -> Seq<Option<T>> {
        self.data@.map_values(|c: Cell<T>| c.value())
    }

    /// The free slots, in the order in which later inserts take them.
    pub closed spec fn free_list(&self) -> Seq<usize> {
        self.free@
    }

    /// The positions of the occupied slots.
    pub open spec fn occupied(&self) -> Set<int> {
        Set::new(|i: int| 0 <= i < self@.len() && self@[i] is Some)
    }

    /// The number of occupied slots.
    pub open spec fn spec_len(&self) -> nat {
        (self@.len() - self.free_list().len()) as nat
    }

    /// The free list links exactly the free slots, each once, and the count
    /// of occupied slots is kept alongside.
    pub closed spec fn wf(&self) -> bool {
        let free = self.free@;
        &&& free.no_duplicates()
        &&& forall|i: int| 0 <= i < free.len() ==> #[trigger] free[i] < self.data@.len()
        &&& forall|i: int|
            #![trigger self.data@[free[i] as int]]
            0 <= i < free.len() ==> self.data@[free[i] as int] == Cell::<T>::Nothing(
                next_link(free, i),
            )
        &&& forall|j: int|
            0 <= j < self.data@.len() && self.data@[j] is Nothing ==> #[trigger] free.contains(
                j as usize,
            )
        &&& self.head == (if free.len() == 0 {
            None
        } else {
            Some(free[0])
        })
        &&& self.len + free.len() == self.data@.len()
        &&& self.data@.len() <= usize::MAX
    }

    proof fn lemma_free_slots(&self)
        requires
            self.wf(),
        ensures
            forall|j: int| 0 <= j < self@.len() ==> (self@[j] is None <==> #[trigger] self.free_list().contains(j as usize)),
            forall|i: int| 0 <= i < self.free_list().len() ==> #[trigger] self.free_list()[i] < self@.len(),
    {
        assert forall|j: int| 0 <= j < self@.len() implies (self@[j] is None <==> #[trigger] self.free_list().contains(j as usize)) by {
            if self.free_list().contains(j as usize) {
                let i = choose|i: int| 0 <= i < self.free@.len() && self.free@[i] == j as usize;
                assert(self.free@[i] < self.data@.len());
            }
        }
    }

    /// The count of occupied slots, which never exceeds the capacity.
    pub proof fn lemma_len_counts_occupied(&self)
        requires
            self.wf(),
        ensures
            self.spec_len() == self.occupied().len(),
            self.spec_len() <= self@.len(),
            self.occupied().finite(),
    {
        self.lemma_free_slots();
        let n = self@.len() as int;
        let f = |u: usize| u as int;
        let fs = self.free_list().to_set().map(f);
        let range = set_int_range(0, n);
        lemma_int_range(0, n);
        assert forall|x: int| #[trigger] fs.contains(x) implies range.contains(x) by {
            let u = choose|u: usize| self.free_list().to_set().contains(u) && f(u) == x;
            assert(self.free_list().contains(u));
        }
        assert forall|x: int| #[trigger] self.occupied().contains(x) <==> range.difference(fs).contains(x) by {
            if 0 <= x < n {
                assert(f(x as usize) == x);
                if self.free_list().contains(x as usize) {
                    assert(self.free_list().to_set().contains(x as usize));
                }
                if fs.contains(x) {
                    let u = choose|u: usize| self.free_list().to_set().contains(u) && f(u) == x;
                    assert(u == x as usize);
                }
            }
        }
        vstd::set_lib::lemma_len_subset(fs, range);
        assert(self.occupied() =~= range.difference(fs));
        self.free_list().unique_seq_to_set();
        assert(vstd::relations::injective_on(f, self.free_list().to_set()));
        vstd::set_lib::lemma_map_size(self.free_list().to_set(), fs, f);
        vstd::set_lib::lemma_set_difference_len(range, fs);
        assert(range.intersect(fs) =~= fs);
    }

    /// Fewer values than slots means free slots, each named once by the free
    /// list; an insert takes the first of them and does not grow the store,
    /// and a remove puts its slot back at the front.
    pub proof fn lemma_room_is_free_slots(&self)
        requires
            self.wf(),
        ensures
            self.spec_len() < self@.len() <==> self.free_list().len() > 0,
            self.free_list().no_duplicates(),
            forall|i: int|
                0 <= i < self.free_list().len() ==> #[trigger] self.free_list()[i] < self@.len()
                    && self@[self.free_list()[i] as int] is None,
    {
        self.lemma_free_slots();
        assert forall|i: int| 0 <= i < self.free_list().len() implies #[trigger] self.free_list()[i]
            < self@.len() && self@[self.free_list()[i] as int] is None by {
            assert(self.free_list().contains(self.free_list()[i]));
        }
    }

    /// The number of occupied slots.
    pub fn len(&self) -> (r: usize)
        requires
            self.wf(),
        ensures
            r == self.spec_len(),
    {
        self.len
    }

    /// Whether no slot is occupied.
    pub fn is_empty(&self) -> (r: bool)
        requires
            self.wf(),
        ensures
            r == (self.spec_len() == 0),
    {
        self.len == 0
    }

    /// The number of slots, occupied or free.
    pub fn capacity(&self) -> (r: usize)
        ensures
            r == self@.len(),
    {
        self.data.len()
    }

    /// An arena with no slots.
    pub fn new() -> (a: Self)
        ensures
            a.wf(),
            a@.len() == 0,
            a.free_list().len() == 0,
    {
        Arena { data: Vec::new(), head: None, len: 0, free: Ghost(Seq::empty()) }
    }

    /// The last slot of the free list, found by following its links from the head.
    fn find_last_available(&self) -> (r: Option<usize>)
        requires
            self.wf(),
        ensures
            r == (if self.free@.len() == 0 {
                None
            } else {
                Some(self.free@.last())
            }),
    {
        match self.head {
            None => None,
            Some(first) => {
                let mut cur: usize = first;
                let ghost mut i: int = 0;
                loop
                    invariant
                        self.wf(),
                        0 <= i < self.free@.len(),
                        cur == self.free@[i],
                    decreases self.free@.len() - i,
                {
                    assert(self.free@[i] < self.data@.len());
                    match &self.data[cur] {
                        Cell::Nothing(Some(n)) => {
                            cur = *n;
                            proof {
                                i = i + 1;
                            }
                        },
                        Cell::Nothing(None) => {
                            return Some(cur);
                        },
                        Cell::Just(_) => {
                            return None;
                        },
                    }
                }
            },
        }
    }

    /// Adds `additional` free slots at the end of the store and links them,
    /// in order, after the existing free list.
    fn allocate(&mut self, additional: usize)
        requires
            old(self).wf(),
            additional >= 1,
            old(self).data@.len() + additional <= usize::MAX,
        ensures
            final(self).wf(),
            final(self)@ == old(self)@ + Seq::new(additional as nat, |k: int| None::<T>),
            final(self).free@ == old(self).free@ + Seq::new(
                additional as nat,
                |k: int| (old(self).data@.len() + k) as usize,
            ),
            final(self).len == old(self).len,
    {
        let ghost old_data = self.data@;
        let ghost old_free = self.free@;
        let first = self.data.len();
        match self.find_last_available() {
            Some(n) => {
                assert(old_free[old_free.len() - 1] < old_data.len());
                self.data.set(n, Cell::Nothing(Some(first)));
            },
            None => {
                self.head = Some(first);
            },
        }
        let ghost patched = self.data@;
        let ghost head = self.head;
        let end = first + additional;
        let mut i: usize = first + 1;
        while i < end
            invariant
                first + 1 <= i <= end,
                end == first + additional,
                end <= usize::MAX,
                self.data@.len() == i - 1,
                forall|j: int| 0 <= j < first ==> self.data@[j] == patched[j],
                forall|j: int| first <= j < i - 1 ==> self.data@[j] == Cell::<T>::Nothing(Some((j + 1) as usize)),
                patched.len() == first,
                self.len == old(self).len,
                self.head == head,
                self.free@ == old_free,
            decreases end - i,
        {
            self.data.push(Cell::Nothing(Some(i)));
            i = i + 1;
        }
        let ghost before_last = self.data@;
        self.data.push(Cell::Nothing(None));
        assert(self.data@ == before_last.push(Cell::<T>::Nothing(None)));
        assert(self.data@.len() == end);
        let ghost new_part = Seq::new(additional as nat, |k: int| (first + k) as usize);
        self.free = Ghost(old_free + new_part);
        proof {
            let free = self.free@;
            assert(free.no_duplicates()) by {
                assert forall|a: int, b: int| 0 <= a < b < free.len() implies free[a] != free[b] by {
                    if b >= old_free.len() && a < old_free.len() {
                        assert(old_free[a] < first);
                    }
                }
            }
            assert forall|k: int| 0 <= k < free.len() implies #[trigger] self.data@[free[k] as int]
                == Cell::<T>::Nothing(next_link(free, k)) by {
                if k < old_free.len() {
                    assert(old_free[k] < first);
                    assert(self.data@[free[k] as int] == patched[free[k] as int]);
                    if k + 1 < old_free.len() {
                        assert(old_free[k] != old_free[old_free.len() - 1]);
                        assert(old_data[old_free[k] as int] == Cell::<T>::Nothing(next_link(old_free, k)));
                    } else {
                        assert(free[k + 1] == first);
                    }
                } else {
                    let m = k - old_free.len();
                    assert(free[k] == first + m);
                    if m + 1 < additional {
                        assert(free[k + 1] == first + m + 1);
                    }
                }
            }
            assert forall|j: int| 0 <= j < self.data@.len() && self.data@[j] is Nothing implies #[trigger] free.contains(j as usize) by {
                if j < first {
                    assert(self.data@[j] == patched[j]);
                    if old_data[j] is Nothing {
                        assert(old_free.contains(j as usize));
                        let t = choose|t: int| 0 <= t < old_free.len() && old_free[t] == j as usize;
                        assert(free[t] == j as usize);
                    } else {
                        if old_free.len() > 0 {
                            assert(old_free[old_free.len() - 1] != j);
                        }
                    }
                } else {
                    assert(free[old_free.len() + (j - first)] == j as usize);
                }
            }
            assert(self@ =~= old(self)@ + Seq::new(additional as nat, |k: int| None::<T>)) by {
                assert forall|j: int| 0 <= j < self@.len() implies #[trigger] self@[j] == (old(self)@
                    + Seq::new(additional as nat, |k: int| None::<T>))[j] by {
                    if j < first {
                        if old_free.len() > 0 && j == old_free[old_free.len() - 1] {
                            assert(old_data[old_free[old_free.len() - 1] as int] is Nothing);
                        }
                        assert(self.data@[j] == patched[j]);
                    }
                }
            }
        }
    }

    /// Stores `data` in a free slot, growing the store first when none is free,
    /// and returns the slot's handle. A free slot is reused before any growth,
    /// and the most recently freed one first.
    pub fn insert(&mut self, data: T) -> (h: Handle)
        requires
            old(self).wf(),
            old(self).spec_len() <= usize::MAX / 2,
        ensures
            final(self).wf(),
            h.0 < final(self)@.len(),
            final(self)@.len() >= old(self)@.len(),
            h.0 < old(self)@.len() ==> old(self)@[h.0 as int] is None,
            final(self)@[h.0 as int] == Some(data),
            forall|i: int|
                0 <= i < final(self)@.len() && i != h.0 ==> #[trigger] final(self)@[i] == (if i
                    < old(self)@.len() {
                    old(self)@[i]
                } else {
                    None
                }),
            final(self).spec_len() == old(self).spec_len() + 1,
            old(self).spec_len() < old(self)@.len() ==> final(self)@.len() == old(self)@.len(),
            old(self).free_list().len() > 0 ==> {
                &&& final(self)@.len() == old(self)@.len()
                &&& h.0 == old(self).free_list()[0]
                &&& final(self).free_list() == old(self).free_list().drop_first()
            },
    {
        if self.head.is_none() {
            let grow = if self.len == 0 {
                1
            } else {
                self.len
            };
            self.allocate(grow);
        }
        let ghost mid = *self;
        let idx = self.head.unwrap();
        assert(self.free@[0] < self.data@.len());
        assert(self.data@[self.free@[0] as int] == Cell::<T>::Nothing(next_link(self.free@, 0)));
        let next = match &self.data[idx] {
            Cell::Nothing(n) => *n,
            Cell::Just(_) => None,
        };
        self.head = next;
        self.data.set(idx, Cell::Just(data));
        self.len = self.len + 1;
        self.free = Ghost(self.free@.drop_first());
        proof {
            let free = self.free@;
            let mf = mid.free@;
            assert forall|k: int| 0 <= k < free.len() implies #[trigger] self.data@[free[k] as int]
                == Cell::<T>::Nothing(next_link(free, k)) by {
                assert(mf[k + 1] == free[k]);
                assert(mf[k + 1] != mf[0]);
            }
            assert forall|j: int| 0 <= j < self.data@.len() && self.data@[j] is Nothing implies #[trigger] free.contains(j as usize) by {
                assert(mid.data@[j] is Nothing);
                assert(j != idx);
                assert(mf[0] == idx);
                assert(mf.contains(j as usize));
                let t = choose|t: int| 0 <= t < mf.len() && mf[t] == j as usize;
                assert(t != 0);
                assert(free[t - 1] == j as usize);
            }
            if free.len() > 0 {
                assert(mf[1] == free[0]);
            }
            assert forall|i: int| 0 <= i < self@.len() && i != idx implies #[trigger] self@[i] == (if i
                < old(self)@.len() {
                old(self)@[i]
            } else {
                None
            }) by {
                assert(self@[i] == mid@[i]);
                if i < old(self)@.len() {
                    assert(mid@[i] == old(self)@[i]);
                }
            }
            if old(self).free@.len() == 0 {
                assert(old(self).data@.len() == old(self).len);
                assert(old(self)@.len() == old(self).data@.len());
            }
        }
        Handle(idx)
    }

    /// Frees the slot of `handle` and returns the value it held; `None` when
    /// the slot is already free or out of range, which changes nothing. The
    /// freed slot becomes the head of the free list.
    pub fn remove(&mut self, handle: Handle) -> (r: Option<T>)
        requires
            old(self).wf(),
        ensures
            final(self).wf(),
            r == (if handle.0 < old(self)@.len() {
                old(self)@[handle.0 as int]
            } else {
                None
            }),
            r is None ==> *final(self) == *old(self),
            r is Some ==> {
                &&& final(self)@ == old(self)@.update(handle.0 as int, None)
                &&& final(self).free_list() == seq![handle.0] + old(self).free_list()
                &&& final(self).spec_len() + 1 == old(self).spec_len()
            },
    {
        let i = handle.0;
        if i >= self.data.len() {
            return None;
        }
        if let Cell::Nothing(_) = &self.data[i] {
            return None;
        }
        let ghost prev = *self;
        proof {
            prev.lemma_len_counts_occupied();
            assert(prev.occupied().contains(i as int));
            if prev.len == 0 {
                prev.occupied().lemma_len0_is_empty();
            }
        }
        let mut cell = Cell::Nothing(self.head);
        std::mem::swap(&mut self.data[i], &mut cell);
        self.head = Some(i);
        self.len = self.len - 1;
        self.free = Ghost(seq![i] + self.free@);
        proof {
            prev.lemma_free_slots();
            let free = self.free@;
            let pf = prev.free@;
            assert(!pf.contains(i));
            assert forall|a: int, b: int| 0 <= a < b < free.len() implies free[a] != free[b] by {
                if a == 0 {
                    assert(pf[b - 1] == free[b]);
                }
            }
            assert forall|k: int| 0 <= k < free.len() implies #[trigger] self.data@[free[k] as int]
                == Cell::<T>::Nothing(next_link(free, k)) by {
                if k > 0 {
                    assert(free[k] == pf[k - 1]);
                    assert(pf[k - 1] != i);
                }
            }
            assert forall|j: int| 0 <= j < self.data@.len() && self.data@[j] is Nothing implies #[trigger] free.contains(j as usize) by {
                if j != i {
                    assert(pf.contains(j as usize));
                    let t = choose|t: int| 0 <= t < pf.len() && pf[t] == j as usize;
                    assert(free[t + 1] == j as usize);
                } else {
                    assert(free[0] == i);
                }
            }
            assert(self@ =~= prev@.update(i as int, None));
        }
        match cell {
            Cell::Just(v) => Some(v),
            Cell::Nothing(_) => None,
        }
    }

    /// Frees the slot of `handle` like [`Arena::remove`], and reports a slot
    /// that was already free, or out of range, as an error.
    pub fn release(&mut self, handle: Handle) -> (r: Result<T, Error>)
        requires
            old(self).wf(),
        ensures
            final(self).wf(),
            r == (if handle.0 < old(self)@.len() && old(self)@[handle.0 as int] is Some {
                Ok(old(self)@[handle.0 as int].unwrap())
            } else {
                Err(Error::NotAFreeNode)
            }),
            r is Err ==> *final(self) == *old(self),
            r is Ok ==> {
                &&& final(self)@ == old(self)@.update(handle.0 as int, None)
                &&& final(self).free_list() == seq![handle.0] + old(self).free_list()
                &&& final(self).spec_len() + 1 == old(self).spec_len()
            },
    {
        match self.remove(handle) {
            Some(v) => Ok(v),
            None => Err(Error::NotAFreeNode),
        }
    }

    /// The value in the slot of `handle`; `None` when that slot is free or out
    /// of range.
    pub fn get(&self, handle: Handle) -> (r: Option<&T>)
        ensures
            (r is Some) == (handle.0 < self@.len() && self@[handle.0 as int] is Some),
            r is Some ==> Some(*r.unwrap()) == self@[handle.0 as int],
    {
        if handle.0 >= self.data.len() {
            return None;
        }
        match &self.data[handle.0] {
            Cell::Just(v) => Some(v),
            Cell::Nothing(_) => None,
        }
    }

    /// Mutable access to the value in the slot of `handle`; `None` when that
    /// slot is free or out of range. Only that value can change through it.
    pub fn get_mut(&mut self, handle: Handle) -> (r: Option<&mut T>)
        requires
            old(self).wf(),
        ensures
            (r is Some) == (handle.0 < old(self)@.len() && old(self)@[handle.0 as int] is Some),
            r is Some ==> {
                &&& *r.unwrap() == old(self)@[handle.0 as int].unwrap()
                &&& final(self)@ == old(self)@.update(handle.0 as int, Some(*final(r.unwrap())))
                &&& final(self).wf()
                &&& final(self).free_list() == old(self).free_list()
                &&& final(self).spec_len() == old(self).spec_len()
            },
            r is None ==> *final(self) == *old(self),
    {
        if handle.0 >= self.data.len() {
            return None;
        }
        if let Cell::Nothing(_) = &self.data[handle.0] {
            return None;
        }
        match &mut self.data[handle.0] {
            Cell::Just(v) => Some(v),
            Cell::Nothing(_) => None,
        }
    }
}

} // verus!
