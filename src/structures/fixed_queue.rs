use vstd::prelude::*;

verus! {

/// A fixed size queue. When pushing a new item, the oldest one gets returned.
pub struct FixedQueue<T> {
    data: Vec<T>,
    at: usize,
}

impl<T> View for FixedQueue<T> {
    /// The items, oldest first.
    type V = Seq<T>;

    closed spec fn view(&self) -> Seq<T> {
        self.data@.subrange(self.at as int, self.data@.len() as int) + self.data@.subrange(
            0,
            self.at as int,
        )
    }
}

/// What successive pushes of `items` into a queue holding `q` hand back, and
/// what the queue holds afterwards.
pub open spec fn push_all<T>(q: Seq<T>, items: Seq<T>) -> (Seq<T>, Seq<T>)
    decreases items.len(),
{
    if items.len() == 0 {
        (seq![], q)
    } else {
        let (out, rest) = push_all(q, items.drop_last());
        (out.push(rest[0]), rest.drop_first().push(items.last()))
    }
}

/// A queue is a pure delay line: the items that successive pushes hand back
/// are the items it held, oldest first, followed by the pushed items, so each
/// pushed item comes back exactly `capacity` pushes later.
pub proof fn lemma_delay_line<T>(q: Seq<T>, items: Seq<T>)
    requires
        q.len() > 0,
    ensures
        push_all(q, items).0 == (q + items).take(items.len() as int),
        push_all(q, items).1 == (q + items).subrange(items.len() as int, (q.len() + items.len()) as int),
    decreases items.len(),
{
    if items.len() > 0 {
        let prev = items.drop_last();
        lemma_delay_line(q, prev);
        let n = items.len() as int;
        assert((q + prev) =~= (q + items).take(q.len() + n - 1));
        assert(push_all(q, items).0 =~= (q + items).take(n));
        assert(push_all(q, items).1 =~= (q + items).subrange(n, q.len() + n));
    }
}

impl<T> FixedQueue<T> {
    /// The write position lies inside the storage.
    pub closed spec fn wf(&self) -> bool {
        (self.data@.len() == 0 && self.at == 0) || self.at < self.data@.len()
    }
}

impl<T: Copy> FixedQueue<T> {
    /// The number of items the queue holds.
    pub fn capacity(&self) -> (r: usize)
        requires
            self.wf(),
        ensures
            r == self@.len(),
    {
        self.data.len()
    }

    /// A queue of `capacity` copies of `fill`.
    pub fn new_with(fill: T, capacity: usize) -> (r: Self)
        ensures
            r.wf(),
            r@ == Seq::new(capacity as nat, |i: int| fill),
    {
        let mut data: Vec<T> = Vec::with_capacity(capacity);
        let mut i: usize = 0;
        while i < capacity
            invariant
                i <= capacity,
                data@ == Seq::new(i as nat, |j: int| fill),
            decreases capacity - i,
        {
            data.push(fill);
            i = i + 1;
            assert(data@ =~= Seq::new(i as nat, |j: int| fill));
        }
        let r = FixedQueue { data, at: 0 };
        assert(r@ =~= Seq::new(capacity as nat, |i: int| fill));
        r
    }

    /// Push a value to this queue, returning the oldest one.
    pub fn push(&mut self, item: T) -> (r: T)
        requires
            old(self).wf(),
            old(self)@.len() > 0,
        ensures
            final(self).wf(),
            r == old(self)@[0],
            final(self)@ == old(self)@.drop_first().push(item),
    {
        let ghost before = self@;
        assert(before.len() == self.data@.len());
        let len = self.data.len();
        let value = self.data[self.at];
        let next = if self.at + 1 == len { 0 } else { self.at + 1 };
        let ghost old_data = self.data@;
        let ghost old_at = self.at as int;
        self.data.set(self.at, item);
        self.at = next;
        proof {
            if next == 0 {
                assert(self@ =~= before.drop_first().push(item));
            } else {
                assert(self@ =~= before.drop_first().push(item));
            }
        }
        value
    }

    /// The oldest value in this queue.
    pub fn get(&self) -> (r: &T)
        requires
            self.wf(),
            self@.len() > 0,
        ensures
            *r == self@[0],
    {
        assert(self@.len() == self.data@.len());
        assert(self@[0] == self.data@[self.at as int]);
        &self.data[self.at]
    }
}

impl<T: Copy + Default> FixedQueue<T> {
    /// A queue of `capacity` default values.
    pub fn new(capacity: usize) -> (r: Self)
        ensures
            r.wf(),
            r@.len() == capacity,
            forall|i: int, j: int| 0 <= i < capacity && 0 <= j < capacity ==> r@[i] == r@[j],
    {
        Self::new_with(T::default(), capacity)
    }
}

} // verus!
