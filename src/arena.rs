use vstd::prelude::*;

verus! {

/// A distinct sequence of indices below `n` holds at most `n` of them.
proof fn lemma_distinct_below(s: Seq<usize>, n: int)
    requires
        s.no_duplicates(),
        forall|i: int| 0 <= i < s.len() ==> (#[trigger] s[i] as int) < n,
    ensures
        s.len() <= if n < 0 {
            0
        } else {
            n
        },
    decreases if n < 0 {
        0
    } else {
        n
    },
{
    if s.len() == 0 {
    } else if n <= 0 {
        assert(s[0] as int >= 0);
    } else if s.contains((n - 1) as usize) {
        let k = s.index_of((n - 1) as usize);
        let t = s.remove(k);
        assert forall|i: int| 0 <= i < t.len() implies (#[trigger] t[i] as int) < n - 1 by {
            if i < k {
                assert(s[i] != s[k]);
            } else {
                assert(s[i + 1] != s[k]);
            }
        }
        assert(t.no_duplicates()) by {
            assert forall|i: int, j: int| 0 <= i < t.len() && 0 <= j < t.len() && i != j implies t[i]
                != t[j] by {
                let si = if i < k {
                    i
                } else {
                    i + 1
                };
                let sj = if j < k {
                    j
                } else {
                    j + 1
                };
                assert(t[i] == s[si] && t[j] == s[sj]);
            }
        }
        lemma_distinct_below(t, n - 1);
    } else {
        assert forall|i: int| 0 <= i < s.len() implies (#[trigger] s[i] as int) < n - 1 by {
            assert(s[i] != (n - 1) as usize);
        }
        lemma_distinct_below(s, n - 1);
    }
}

/// Index-addressed storage whose freed slots are reused, last freed first.
#[derive(Debug)]
pub struct Arena<T> {
    /// Arena of items
    items: Vec<T>,
    /// Stack of indices of free items
    free_items: Vec<usize>,
}

impl<T> Arena<T> {
    /// Every slot ever issued, live or freed.
    pub closed spec fn slots(&self) -> Seq<T> {
        self.items@
    }

    /// The freed indices, the most recently freed last.
    pub closed spec fn free_stack(&self) -> Seq<usize> {
        self.free_items@
    }

    /// Freed indices are distinct and were issued.
    pub open spec fn wf(&self) -> bool {
        &&& self.free_stack().no_duplicates()
        &&& forall|i: int|
            0 <= i < self.free_stack().len() ==> (#[trigger] self.free_stack()[i] as int)
                < self.slots().len()
    }

    /// `i` was issued and is not freed.
    pub open spec fn is_live(&self, i: usize) -> bool {
        &&& (i as int) < self.slots().len()
        &&& !self.free_stack().contains(i)
    }

    /// Count of issued indices that are not freed.
    pub open spec fn live_count(&self) -> int {
        self.slots().len() - self.free_stack().len()
    }

    /// The index the next `allocate` hands out: the most recently freed one,
    /// else one never issued.
    pub open spec fn next_index(&self) -> int {
        if self.free_stack().len() > 0 {
            self.free_stack().last() as int
        } else {
            self.slots().len() as int
        }
    }

    pub fn new() -> (r: Self)
        ensures
            r.wf(),
            r.slots() == Seq::<T>::empty(),
            r.free_stack() == Seq::<usize>::empty(),
            r.live_count() == 0,
    {
        Arena { items: Vec::new(), free_items: Vec::new() }
    }

    pub fn allocate(&mut self, item: T) -> (r: usize)
        requires
            old(self).wf(),
        ensures
            final(self).wf(),
            r == old(self).next_index(),
            old(self).free_stack().len() > 0 ==> final(self).free_stack() == old(
                self,
            ).free_stack().drop_last() && final(self).slots() == old(self).slots().update(
                r as int,
                item,
            ),
            old(self).free_stack().len() == 0 ==> final(self).free_stack() == old(
                self,
            ).free_stack() && final(self).slots() == old(self).slots().push(item),
            final(self).is_live(r),
            final(self).live_count() == old(self).live_count() + 1,
            forall|i: usize| old(self).is_live(i) ==> #[trigger] final(self).is_live(i),
    {
        let mut index: usize = self.items.len();
        if let Some(i) = self.free_items.pop() {
            self.items.set(i, item);
            index = i;
        } else {
            self.items.push(item);
        }
        proof {
            let old_free = old(self).free_stack();
            if old_free.len() > 0 {
                assert(old_free =~= self.free_stack().push(index));
                assert forall|j: int| 0 <= j < self.free_stack().len() implies self.free_stack()[j]
                    != index by {
                    assert(old_free[j] != old_free[old_free.len() - 1]);
                }
                assert(!self.free_stack().contains(index));
                assert forall|k: usize| old(self).is_live(k) implies #[trigger] self.is_live(k) by {
                    if self.free_stack().contains(k) {
                        let j = self.free_stack().index_of(k);
                        assert(old_free[j] == k);
                    }
                }
            }
        }
        index
    }

    /// Returns the slot `index` to the free stack.
    pub fn free(&mut self, index: usize)
        requires
            old(self).wf(),
            old(self).is_live(index),
        ensures
            final(self).wf(),
            final(self).free_stack() == old(self).free_stack().push(index),
            final(self).slots() == old(self).slots(),
            !final(self).is_live(index),
            final(self).live_count() == old(self).live_count() - 1,
            forall|i: usize| i != index ==> old(self).is_live(i) == #[trigger] final(self).is_live(i),
    {
        self.free_items.push(index);
        proof {
            assert(self.free_stack()[self.free_stack().len() - 1] == index);
            assert forall|k: usize| k != index implies old(self).is_live(k) == #[trigger] self.is_live(
                k,
            ) by {
                if self.free_stack().contains(k) {
                    let j = self.free_stack().index_of(k);
                    if j < old(self).free_stack().len() {
                        assert(old(self).free_stack()[j] == k);
                    }
                }
                if old(self).free_stack().contains(k) {
                    let j = old(self).free_stack().index_of(k);
                    assert(self.free_stack()[j] == k);
                }
            }
        }
    }

    pub fn size(&self) -> (r: usize)
        requires
            self.wf(),
        ensures
            r == self.live_count(),
    {
        proof {
            lemma_distinct_below(self.free_stack(), self.slots().len() as int);
        }
        self.items.len() - self.free_items.len()
    }

    pub fn get(&self, index: usize) -> (r: &T)
        requires
            self.is_live(index),
        ensures
            *r == self.slots()[index as int],
    {
        &self.items[index]
    }

    pub fn get_mut(&mut self, index: usize) -> (r: &mut T)
        requires
            old(self).is_live(index),
        ensures
            *r == old(self).slots()[index as int],
            final(self).slots() == old(self).slots().update(index as int, *final(r)),
            final(self).free_stack() == old(self).free_stack(),
    {
        &mut self.items[index]
    }
}

/// Freeing a live index and then allocating hands the same index back.
pub proof fn lemma_free_then_allocate<T>(a: &Arena<T>, b: &Arena<T>, index: usize)
    requires
        a.wf(),
        a.is_live(index),
        b.free_stack() == a.free_stack().push(index),
        b.slots() == a.slots(),
    ensures
        b.next_index() == index,
        b.live_count() == a.live_count() - 1,
{
}

/// An index that `allocate` hands out is either one never issued or the most
/// recently freed one.
pub proof fn lemma_allocate_reuse<T>(a: &Arena<T>)
    requires
        a.wf(),
    ensures
        a.next_index() == a.slots().len() || (a.free_stack().len() > 0 && a.next_index()
            == a.free_stack().last()),
        a.next_index() <= usize::MAX ==> !a.is_live(a.next_index() as usize),
{
    if a.free_stack().len() > 0 {
        assert(a.free_stack().contains(a.free_stack().last()));
    }
}

} // verus!
