//! A fixed-capacity structure that keeps the items with the smallest keys
//! among all those pushed into it.

use vstd::prelude::*;

verus! {

/// Whether the keys of `s` are in ascending order.
pub open spec fn keys_ascending<T>(s: Seq<(u128, T)>) -> bool {
    forall|i: int, j: int| 0 <= i < j < s.len() ==> #[trigger] s[i].0 <= #[trigger] s[j].0
}

/// Items paired with a key, of which at most `cap` with the smallest keys are
/// kept. Ties between equal keys are kept in the order of their arrival.
pub struct KSmallest<T> {
    items: Vec<(u128, T)>,
    cap: usize,
}

impl<T> View for KSmallest<T> {
    type V = Seq<(u128, T)>;

    closed spec fn view(&self) -> Seq<(u128, T)> {
        self.items@
    }
}

impl<T> KSmallest<T> {
    /// The number of items that are kept at most.
    pub closed spec fn capacity(&self) -> nat {
        self.cap as nat
    }

    /// The kept items are in ascending order of key and never exceed the capacity.
    pub open spec fn wf(&self) -> bool {
        keys_ascending(self@) && self@.len() <= self.capacity()
    }

    /// An empty structure that keeps at most `cap` items.
    pub fn new(cap: usize) -> (r: KSmallest<T>)
        ensures
            r.wf(),
            r@ == Seq::<(u128, T)>::empty(),
            r.capacity() == cap,
    {
        KSmallest { items: Vec::new(), cap }
    }

    /// The number of items kept.
    pub fn len(&self) -> (r: usize)
        ensures
            r == self@.len(),
    {
        self.items.len()
    }

    /// Whether as many items are kept as the capacity allows.
    pub fn is_full(&self) -> (r: bool)
        ensures
            r == (self@.len() >= self.capacity()),
    {
        self.items.len() >= self.cap
    }

    /// The largest key kept, if any item is kept.
    pub fn peek_max(&self) -> (r: Option<u128>)
        requires
            self.wf(),
        ensures
            self@.len() == 0 ==> r.is_none(),
            self@.len() > 0 ==> r == Some(self@.last().0),
    {
        let n = self.items.len();
        if n == 0 {
            None
        } else {
            Some(self.items[n - 1].0)
        }
    }

    /// Push an item with its key at its place in key order, after the items
    /// with an equal key, and drop the item with the largest key if the
    /// capacity is then exceeded. Returns the place where the item was put.
    pub fn push(&mut self, key: u128, item: T) -> (pos: usize)
        requires
            old(self).wf(),
        ensures
            final(self).wf(),
            final(self).capacity() == old(self).capacity(),
            pos <= old(self)@.len(),
            keys_ascending(old(self)@.insert(pos as int, (key, item))),
            final(self)@ == (if old(self)@.len() + 1 > old(self).capacity() {
                old(self)@.insert(pos as int, (key, item)).drop_last()
            } else {
                old(self)@.insert(pos as int, (key, item))
            }),
    {
        let mut i: usize = self.items.len();
        while i > 0 && self.items[i - 1].0 > key
            invariant
                i <= self.items@.len(),
                self.items@ == old(self)@,
                keys_ascending(self.items@),
                forall|j: int| i <= j < self.items@.len() ==> self.items@[j].0 > key,
            decreases i,
        {
            i = i - 1;
        }
        self.items.insert(i, (key, item));
        if self.items.len() > self.cap {
            self.items.pop();
        }
        i
    }

    /// The kept items, in ascending order of key.
    pub fn into_sorted_vec(self) -> (r: Vec<(u128, T)>)
        ensures
            r@ == self@,
    {
        self.items
    }
}

} // verus!
