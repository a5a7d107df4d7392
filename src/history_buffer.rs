//! A fixed-capacity ring of samples that is never empty.

use vstd::prelude::*;

verus! {

/// `h` after `item` is added to a ring that holds at most `capacity` items:
/// the oldest one leaves when the ring is full.
pub open spec fn pushed<T>(h: Seq<T>, item: T, capacity: nat) -> Seq<T> {
    if h.len() < capacity {
        h.push(item)
    } else {
        h.drop_first().push(item)
    }
}

/// A ring of `capacity` slots made with `first` after each of `pushes` was
/// added in turn.
pub open spec fn after_pushes<T>(first: T, pushes: Seq<T>, capacity: nat) -> Seq<T>
    decreases pushes.len(),
{
    if pushes.len() == 0 {
        seq![first]
    } else {
        pushed(after_pushes(first, pushes.drop_last(), capacity), pushes.last(), capacity)
    }
}

/// A ring of `capacity` slots made with one item and then given `m` more
/// holds `min(1 + m, capacity)` items: the newest ones, oldest first.  Once
/// `m >= capacity` its oldest item is push number `m - capacity + 1` and its
/// newest the last one pushed.
pub proof fn lemma_ring_keeps_newest<T>(first: T, pushes: Seq<T>, capacity: nat)
    requires
        capacity > 0,
    ensures
        ({
            let all = seq![first] + pushes;
            let m = pushes.len() as int;
            let kept = after_pushes(first, pushes, capacity);
            &&& kept.len() == if 1 + m < capacity {
                1 + m
            } else {
                capacity as int
            }
            &&& kept == all.subrange(if m + 1 > capacity {
                m + 1 - capacity
            } else {
                0
            }, m + 1)
            &&& m >= capacity ==> kept[0] == pushes[m - capacity]
            &&& kept.last() == all.last()
        }),
    decreases pushes.len(),
{
    let all = seq![first] + pushes;
    let m = pushes.len() as int;
    if m == 0 {
        assert(all.subrange(0, 1) =~= seq![first]);
    } else {
        let before = pushes.drop_last();
        lemma_ring_keeps_newest(first, before, capacity);
        let all_before = seq![first] + before;
        assert(all_before =~= all.subrange(0, m));
        let kept = after_pushes(first, pushes, capacity);
        let lo = if m + 1 > capacity {
            m + 1 - capacity
        } else {
            0
        };
        assert(kept =~= all.subrange(lo, m + 1));
    }
}

/// Ring buffer of at most `N` items that holds at least one.
///
/// Items live in `buffer`; once it has grown to `N` slots the oldest item
/// sits at `start_index` and each new item overwrites it.
#[derive(Debug)]
pub struct HistoryBuffer<const N: usize, T> {
    buffer: Vec<T>,
    start_index: usize,
}

impl<const N: usize, T> View for HistoryBuffer<N, T> {
    type V = Seq<T>;

    /// The retained items, oldest first.
    closed spec fn view(&self) -> Seq<T> {
        Seq::new(
            self.buffer@.len(),
            |i: int| self.buffer@[(self.start_index + i) % (N as int)],
        )
    }
}

impl<const N: usize, T> HistoryBuffer<N, T> {
    pub closed spec fn wf(&self) -> bool {
        &&& 0 < self.buffer@.len() <= N
        &&& self.start_index < N
        &&& self.buffer@.len() < N ==> self.start_index == 0
    }

    pub proof fn lemma_wf_bounds(&self)
        requires
            self.wf(),
        ensures
            0 < self@.len() <= N,
    {
    }

    /// A ring holding `item` alone.
    pub fn init(item: T) -> (r: HistoryBuffer<N, T>)
        requires
            N > 0,
        ensures
            r.wf(),
            r@ == seq![item],
    {
        let mut buffer: Vec<T> = Vec::with_capacity(N);
        buffer.push(item);
        let r = HistoryBuffer { buffer, start_index: 0 };
        proof {
            vstd::arithmetic::div_mod::lemma_small_mod(0, N as nat);
        }
        assert(r@ =~= seq![item]);
        r
    }

    /// The most recently added item.
    pub fn last(&self) -> (r: &T)
        requires
            self.wf(),
        ensures
            *r == self@.last(),
    {
        self.index(self.buffer.len() - 1)
    }

    /// Adds `item` as the newest; when the ring is full the oldest item is
    /// overwritten.
    pub fn push(&mut self, item: T)
        requires
            old(self).wf(),
        ensures
            final(self).wf(),
            final(self)@ == pushed(old(self)@, item, N as nat),
    {
        let ghost before = self@;
        if self.buffer.len() < N {
            self.buffer.push(item);
            assert forall|i: int| 0 <= i < self@.len() implies #[trigger] ((self.start_index + i) % (N as int))
                == i by {
                vstd::arithmetic::div_mod::lemma_small_mod(i as nat, N as nat);
            }
            assert(self@ =~= before.push(item));
        } else {
            let slot = self.start_index;
            self.buffer.set(slot, item);
            self.start_index = (slot + 1) % N;
            assert forall|i: int| 0 <= i < self@.len() implies self@[i] == pushed(
                before,
                item,
                N as nat,
            )[i] by {
                lemma_ring_step(slot as int, i, N as int);
            }
            assert(self@ =~= pushed(before, item, N as nat));
        }
    }

    /// The `index`-th retained item, oldest first, or `None` past the end.
    pub fn get(&self, index: usize) -> (r: Option<&T>)
        requires
            self.wf(),
        ensures
            index < self@.len() ==> r == Some(&self@[index as int]),
            index >= self@.len() ==> r is None,
    {
        if index >= self.buffer.len() {
            None
        } else {
            Some(self.index(index))
        }
    }

    /// The `index`-th retained item, oldest first.
    pub fn index(&self, index: usize) -> (r: &T)
        requires
            self.wf(),
            index < self@.len(),
        ensures
            *r == self@[index as int],
    {
        let slot: usize = if index < N - self.start_index {
            self.start_index + index
        } else {
            index - (N - self.start_index)
        };
        proof {
            if index < N - self.start_index {
                vstd::arithmetic::div_mod::lemma_small_mod(slot as nat, N as nat);
            } else {
                lemma_mod_wrap_at(self.start_index as int, index as int, N as int);
            }
        }
        &self.buffer[slot]
    }

    /// A cursor over the retained items: `next` walks from the oldest,
    /// `next_back` from the newest.
    pub fn iter(&self) -> (r: HistoryBufferIterator<'_, N, T>)
        requires
            self.wf(),
        ensures
            r.wf(),
            r.items() == self@,
            r.front() == 0,
            r.back() == self@.len(),
            r.forward_rest() == self@,
            r.backward_rest() == self@.reverse(),
    {
        let r = HistoryBufferIterator { buffer: self, front: 0, back: self.buffer.len() };
        proof {
            lemma_forward_order_is_items(self@, 0);
            assert(self@.subrange(0, self@.len() as int) =~= self@);
            lemma_forward_reversed_is_backward(self@, 0, self@.len() as int);
        }
        r
    }

    /// The number of retained items.
    pub fn len(&self) -> (r: usize)
        requires
            self.wf(),
        ensures
            r == self@.len(),
    {
        self.buffer.len()
    }
}

/// Cursor over a `HistoryBuffer`; the items not yet handed out are those
/// at positions `front` up to `back`.
pub struct HistoryBufferIterator<'a, const N: usize, T> {
    buffer: &'a HistoryBuffer<N, T>,
    front: usize,
    back: usize,
}

impl<'a, const N: usize, T> HistoryBufferIterator<'a, N, T> {
    pub closed spec fn items(&self) -> Seq<T> {
        self.buffer@
    }

    pub closed spec fn front(&self) -> nat {
        self.front as nat
    }

    pub closed spec fn back(&self) -> nat {
        self.back as nat
    }

    pub closed spec fn wf(&self) -> bool {
        &&& self.buffer.wf()
        &&& self.front <= self.back <= self.buffer@.len()
    }

    /// What the remaining `next` calls hand out, oldest first.
    pub open spec fn forward_rest(&self) -> Seq<T> {
        forward_order(self.items(), self.front() as int, self.back() as int)
    }

    /// What the remaining `next_back` calls hand out, newest first.
    pub open spec fn backward_rest(&self) -> Seq<T> {
        backward_order(self.items(), self.front() as int, self.back() as int)
    }

    /// The next item from the oldest end, if any is left.
    pub fn next(&mut self) -> (r: Option<&'a T>)
        requires
            old(self).wf(),
        ensures
            final(self).wf(),
            final(self).items() == old(self).items(),
            final(self).back() == old(self).back(),
            old(self).front() < old(self).back() ==> {
                &&& r == Some(&old(self).items()[old(self).front() as int])
                &&& final(self).front() == old(self).front() + 1
            },
            old(self).front() >= old(self).back() ==> {
                &&& r is None
                &&& final(self).front() == old(self).front()
            },
            old(self).forward_rest() == match r {
                Some(x) => seq![*x] + final(self).forward_rest(),
                None => Seq::<T>::empty(),
            },
    {
        if self.front >= self.back {
            None
        } else {
            let item = self.buffer.index(self.front);
            self.front = self.front + 1;
            Some(item)
        }
    }

    /// The next item from the newest end, if any is left.
    pub fn next_back(&mut self) -> (r: Option<&'a T>)
        requires
            old(self).wf(),
        ensures
            final(self).wf(),
            final(self).items() == old(self).items(),
            final(self).front() == old(self).front(),
            old(self).front() < old(self).back() ==> {
                &&& r == Some(&old(self).items()[old(self).back() - 1])
                &&& final(self).back() == old(self).back() - 1
            },
            old(self).front() >= old(self).back() ==> {
                &&& r is None
                &&& final(self).back() == old(self).back()
            },
            old(self).backward_rest() == match r {
                Some(x) => seq![*x] + final(self).backward_rest(),
                None => Seq::<T>::empty(),
            },
    {
        if self.front >= self.back {
            None
        } else {
            self.back = self.back - 1;
            Some(self.buffer.index(self.back))
        }
    }
}

/// What repeated `next` calls hand out from a cursor over `items` that has
/// `front` and `back` as its bounds: the items between them, oldest first.
pub open spec fn forward_order<T>(items: Seq<T>, front: int, back: int) -> Seq<T>
    decreases back - front,
{
    if front >= back {
        Seq::empty()
    } else {
        seq![items[front]] + forward_order(items, front + 1, back)
    }
}

/// What repeated `next_back` calls hand out from the same cursor: the items
/// between the bounds, newest first.
pub open spec fn backward_order<T>(items: Seq<T>, front: int, back: int) -> Seq<T>
    decreases back - front,
{
    if front >= back {
        Seq::empty()
    } else {
        seq![items[back - 1]] + backward_order(items, front, back - 1)
    }
}

/// Walking a ring forward and reversing what came out gives what walking it
/// backward gives, whatever part of the ring is left to walk.
pub proof fn lemma_forward_reversed_is_backward<T>(items: Seq<T>, front: int, back: int)
    ensures
        forward_order(items, front, back).reverse() == backward_order(items, front, back),
    decreases back - front,
{
    if front < back {
        lemma_forward_reversed_is_backward(items, front + 1, back);
        lemma_backward_splits_first(items, front, back);
        let rest = forward_order(items, front + 1, back);
        assert((seq![items[front]] + rest).reverse() =~= rest.reverse() + seq![items[front]]);
    } else {
        assert(forward_order(items, front, back).reverse() =~= Seq::<T>::empty());
    }
}

/// From any state of a cursor, what the remaining `next` calls hand out,
/// reversed, is what the remaining `next_back` calls hand out, whether the
/// ring is partly filled or has wrapped around.
pub proof fn lemma_cursor_forward_reversed_is_backward<'a, const N: usize, T>(
    it: &HistoryBufferIterator<'a, N, T>,
)
    ensures
        it.forward_rest().reverse() == it.backward_rest(),
{
    lemma_forward_reversed_is_backward(it.items(), it.front() as int, it.back() as int);
}

/// Walking backward ends with the item at `front`.
proof fn lemma_backward_splits_first<T>(items: Seq<T>, front: int, back: int)
    requires
        front < back,
    ensures
        backward_order(items, front, back) == backward_order(items, front + 1, back) + seq![
            items[front],
        ],
    decreases back - front,
{
    if front + 1 < back {
        lemma_backward_splits_first(items, front, back - 1);
        assert(backward_order(items, front, back) =~= backward_order(items, front + 1, back)
            + seq![items[front]]);
    } else {
        assert(backward_order(items, front + 1, back) =~= Seq::<T>::empty());
        assert(backward_order(items, front, back - 1) =~= Seq::<T>::empty());
        assert(backward_order(items, front, back) =~= seq![items[front]]);
    }
}

/// A ring walked to its end hands out, forward, exactly its items oldest
/// first.
pub proof fn lemma_forward_order_is_items<T>(items: Seq<T>, front: int)
    requires
        0 <= front <= items.len(),
    ensures
        forward_order(items, front, items.len() as int) == items.subrange(front, items.len() as int),
    decreases items.len() - front,
{
    if front < items.len() {
        lemma_forward_order_is_items(items, front + 1);
        assert(forward_order(items, front, items.len() as int) =~= items.subrange(
            front,
            items.len() as int,
        ));
    } else {
        assert(forward_order(items, front, items.len() as int) =~= items.subrange(
            front,
            items.len() as int,
        ));
    }
}

proof fn lemma_ring_step(s: int, i: int, n: int)
    requires
        0 <= s < n,
        0 <= i < n,
    ensures
        ((s + 1) % n + i) % n == (s + i + 1) % n,
        i + 1 < n ==> (s + i + 1) % n != s,
        i + 1 == n ==> (s + i + 1) % n == s,
{
    vstd::arithmetic::div_mod::lemma_add_mod_noop(s + 1, i, n);
    vstd::arithmetic::div_mod::lemma_small_mod(i as nat, n as nat);
    if s + i + 1 < n {
        vstd::arithmetic::div_mod::lemma_small_mod((s + i + 1) as nat, n as nat);
    } else {
        vstd::arithmetic::div_mod::lemma_mod_sub_multiples_vanish(s + i + 1, n);
        vstd::arithmetic::div_mod::lemma_small_mod((s + i + 1 - n) as nat, n as nat);
    }
}

proof fn lemma_mod_wrap_at(start: int, index: int, n: int)
    requires
        0 <= start < n,
        n - start <= index < n,
    ensures
        (start + index) % n == index - (n - start),
{
    vstd::arithmetic::div_mod::lemma_mod_sub_multiples_vanish(start + index, n);
    vstd::arithmetic::div_mod::lemma_small_mod((start + index - n) as nat, n as nat);
}

} // verus!
