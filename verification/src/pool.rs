//! A bounded list of live effects, oldest first.

use vstd::prelude::*;

verus! {

/// Something on screen for a while: aged every frame and retired once it is spent.
///
/// `D` is how the caller measures time (seconds, in the viewer).
pub trait Effect<D>: Sized {
    /// Whether it has finished and can be dropped.
    spec fn spent(&self) -> bool;

    /// What it is after moving on by `dt`.
    spec fn aged(&self, dt: D) -> Self;

    /// Move on by `dt`.
    fn advance(&mut self, dt: D)
        ensures
            *final(self) == old(self).aged(dt),
    ;

    /// Finished, and can be dropped.
    fn done(&self) -> (b: bool)
        ensures
            b == self.spent(),
    ;
}

/// A bounded list of live effects, oldest first.
///
/// The bound is the shader's array length: past it the newest pushes out the oldest, which
/// has almost always faded furthest and is the one least missed.
pub struct Pool<T> {
    items: Vec<T>,
    cap: usize,
}

impl<T> View for Pool<T> {
    type V = Seq<T>;

    /// The live items, oldest first.
    closed spec fn view(&self) -> Seq<T> {
        self.items@
    }
}

impl<T> Pool<T> {
    /// How many items it holds at most.
    pub closed spec fn capacity(&self) -> nat {
        self.cap as nat
    }

    /// Never more items than the bound.
    pub open spec fn wf(&self) -> bool {
        self@.len() <= self.capacity()
    }

    /// An empty pool holding at most `cap` items.
    pub fn new(cap: usize) -> (p: Self)
        ensures
            p@ == Seq::<T>::empty(),
            p.capacity() == cap,
            p.wf(),
    {
        Pool { items: Vec::new(), cap }
    }

    /// Add `item` as the newest; when the pool is full, the oldest makes room for it.
    pub fn push(&mut self, item: T)
        requires
            old(self).wf(),
            old(self).capacity() > 0,
        ensures
            final(self).wf(),
            final(self).capacity() == old(self).capacity(),
            final(self)@ == pushed_one(old(self)@, item, old(self).capacity()),
    {
        if self.items.len() >= self.cap {
            self.items.remove(0);
            assert(self.items@ == old(self)@.drop_first());
        }
        self.items.push(item);
    }

    /// The live items, oldest first.
    pub fn iter(&self) -> (it: std::slice::Iter<'_, T>)
        ensures
            vstd::std_specs::iter::IteratorSpec::remaining(&it) == self@.as_ref(),
    {
        broadcast use vstd::std_specs::slice::axiom_spec_slice_iter;

        self.items.iter()
    }

    /// How many items are live.
    pub fn len(&self) -> (n: usize)
        ensures
            n == self@.len(),
    {
        self.items.len()
    }

    /// Whether nothing is live.
    pub fn is_empty(&self) -> (b: bool)
        ensures
            b == (self@.len() == 0),
    {
        self.items.len() == 0
    }
}

/// The live items after pushing `item` onto `items` in a pool holding at most `cap`: it is
/// added as the newest, and when the pool is full the oldest makes room for it.
pub open spec fn pushed_one<T>(items: Seq<T>, item: T, cap: nat) -> Seq<T> {
    if items.len() < cap {
        items.push(item)
    } else {
        items.drop_first().push(item)
    }
}

/// The live items after pushing each of `xs` in turn onto `items`.
pub open spec fn pushed_all<T>(items: Seq<T>, xs: Seq<T>, cap: nat) -> Seq<T>
    decreases xs.len(),
{
    if xs.len() == 0 {
        items
    } else {
        pushed_one(pushed_all(items, xs.drop_last(), cap), xs.last(), cap)
    }
}

/// A pool of `cap` that was pushed `xs`, one after another, from empty holds the newest
/// `cap` of them (all, if there were no more), oldest first.
pub proof fn lemma_pool_keeps_the_newest<T>(xs: Seq<T>, cap: nat)
    requires
        cap >= 1,
    ensures
        pushed_all(Seq::<T>::empty(), xs, cap) == xs.skip(
            if xs.len() > cap { xs.len() - cap } else { 0 },
        ),
    decreases xs.len(),
{
    if xs.len() > 0 {
        let d = xs.drop_last();
        lemma_pool_keeps_the_newest(d, cap);
        if d.len() < cap {
            assert(d.skip(0) == d);
            assert(xs.skip(0) == d.push(xs.last()));
        } else {
            let k = d.len() - cap;
            assert(d.skip(k).drop_first().push(xs.last()) == xs.skip(xs.len() - cap));
        }
    }
}

/// The items of `aged` that are still going.
pub open spec fn still_live<D, T: Effect<D>>(aged: Seq<T>) -> Seq<T> {
    aged.filter(|e: T| !e.spent())
}

/// The items of `aged` that have finished.
pub open spec fn finished<D, T: Effect<D>>(aged: Seq<T>) -> Seq<T> {
    aged.filter(|e: T| e.spent())
}

impl<T> Pool<T> {
    /// Age everything by `dt` and hand back whatever finished, for the caller to follow up
    /// on or drop. What stays and what is handed back both keep their order.
    pub fn advance<D: Copy>(&mut self, dt: D) -> (spent: Vec<T>) where T: Effect<D>
        requires
            old(self).wf(),
        ensures
            final(self).wf(),
            final(self).capacity() == old(self).capacity(),
            final(self)@ == still_live::<D, T>(old(self)@.map_values(|e: T| e.aged(dt))),
            spent@ == finished::<D, T>(old(self)@.map_values(|e: T| e.aged(dt))),
    {
        let mut items: Vec<T> = Vec::new();
        std::mem::swap(&mut items, &mut self.items);
        let ghost start = items@;
        let mut kept: Vec<T> = Vec::new();
        let mut spent: Vec<T> = Vec::new();
        let ghost mut aged: Seq<T> = seq![];
        while items.len() > 0
            invariant
                aged.len() + items@.len() == start.len(),
                items@ == start.skip(aged.len() as int),
                forall|i: int| 0 <= i < aged.len() ==> #[trigger] aged[i] == start[i].aged(dt),
                start.len() <= self.cap,
                kept@ == still_live::<D, T>(aged),
                spent@ == finished::<D, T>(aged),
            decreases items@.len(),
        {
            let mut e = items.remove(0);
            assert(e == start[aged.len() as int]);
            assert(items@ == start.skip((aged.len() + 1) as int));
            e.advance(dt);
            let is_done = e.done();
            proof {
                reveal_with_fuel(Seq::filter, 1);
                assert(aged.push(e).drop_last() == aged);
                aged = aged.push(e);
            }
            if is_done {
                spent.push(e);
            } else {
                kept.push(e);
            }
        }
        proof {
            aged.lemma_filter_len(|e: T| !e.spent());
            assert(aged == start.map_values(|e: T| e.aged(dt)));
        }
        self.items = kept;
        spent
    }
}

} // verus!
