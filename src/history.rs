use std::collections::VecDeque;
use vstd::prelude::*;

verus! {

/// A fixed-size history of values, newest first. Its length is fixed when it is
/// made: each push puts the new value in front and drops the oldest one.
pub struct History<T> {
    items: VecDeque<T>,
}

impl<T: Copy> View for History<T> {
    type V = Seq<T>;

    closed spec fn view(&self) -> Seq<T> {
        self.items@
    }
}

/// The history after pushing `v` onto `s`: `v` in front, the oldest value gone,
/// the length unchanged.
pub open spec fn pushed<T>(s: Seq<T>, v: T) -> Seq<T> {
    if s.len() == 0 {
        s
    } else {
        seq![v] + s.drop_last()
    }
}

/// The history after pushing each value of `vs` in turn.
pub open spec fn pushed_all<T>(s: Seq<T>, vs: Seq<T>) -> Seq<T>
    decreases vs.len(),
{
    if vs.len() == 0 {
        s
    } else {
        pushed(pushed_all(s, vs.drop_last()), vs.last())
    }
}

/// However many values are pushed, a history keeps the length it was made with.
pub proof fn lemma_length_kept<T>(s: Seq<T>, vs: Seq<T>)
    ensures
        pushed_all(s, vs).len() == s.len(),
    decreases vs.len(),
{
    if vs.len() > 0 {
        lemma_length_kept(s, vs.drop_last());
    }
}

impl<T: Copy> History<T> {
    /// A history of `size` copies of `fill`.
    pub fn new(size: usize, fill: T) -> (r: Self)
        ensures
            r@ == Seq::new(size as nat, |i: int| fill),
    {
        let mut items: VecDeque<T> = VecDeque::new();
        let mut n: usize = 0;
        while n < size
            invariant
                n <= size,
                items@ == Seq::new(n as nat, |i: int| fill),
            decreases size - n,
        {
            items.push_back(fill);
            n = n + 1;
            assert(items@ =~= Seq::new(n as nat, |i: int| fill));
        }
        History { items }
    }

    /// A history holding `items`, front first.
    pub fn from_deque(items: VecDeque<T>) -> (r: Self)
        ensures
            r@ == items@,
    {
        History { items }
    }

    /// Puts `value` in front and drops the oldest value; a history of length zero
    /// stays empty.
    pub fn push(&mut self, value: T)
        ensures
            final(self)@ == pushed(old(self)@, value),
            final(self)@.len() == old(self)@.len(),
    {
        let size = self.items.len();
        if size == 0 {
            return;
        }
        self.items.truncate(size - 1);
        self.items.push_front(value);
        assert(self.items@ =~= pushed(old(self)@, value));
    }

    /// The number of values.
    pub fn len(&self) -> (r: usize)
        ensures
            r == self@.len(),
    {
        self.items.len()
    }

    /// Whether the history holds no value.
    pub fn is_empty(&self) -> (r: bool)
        ensures
            r == (self@.len() == 0),
    {
        self.items.len() == 0
    }

    /// The values, newest first.
    pub fn iter(&self) -> (r: Vec<T>)
        ensures
            r@ == self@,
    {
        let mut r: Vec<T> = Vec::new();
        let mut i: usize = 0;
        while i < self.items.len()
            invariant
                i <= self.items@.len(),
                r@ == self.items@.take(i as int),
            decreases self.items@.len() - i,
        {
            r.push(self.items[i]);
            i = i + 1;
            assert(r@ =~= self.items@.take(i as int));
        }
        assert(self.items@.take(i as int) =~= self.items@);
        r
    }
}

} // verus!
