//! The outcome of reading one directory once.

use crate::entry::EntryResult;
use vstd::prelude::*;

verus! {

/// The entries of one directory, in the order in which they are handed out.
/// It is walked once, from the front; what has been handed out is gone.
#[derive(Debug)]
pub struct ReadDir {
    /// What is left, last to first: the next result is at the end.
    rest: Vec<EntryResult>,
}

impl View for ReadDir {
    type V = Seq<EntryResult>;

    /// The results that are left, next one first.
    closed spec fn view(&self) -> Seq<EntryResult> {
        self.rest@.reverse()
    }
}

/// The items of `items`, last to first.
pub fn reversed<T>(items: Vec<T>) -> (r: Vec<T>)
    ensures
        r@ == items@.reverse(),
{
    let mut items = items;
    let ghost all = items@;
    let mut rest: Vec<T> = Vec::new();
    while items.len() > 0
        invariant
            items@.len() <= all.len(),
            items@ == all.take(items@.len() as int),
            rest@ == all.skip(items@.len() as int).reverse(),
        decreases items.len(),
    {
        let last = items.pop().unwrap();
        rest.push(last);
        assert(items@ == all.take(items@.len() as int));
        assert(rest@ =~= all.skip(items@.len() as int).reverse());
    }
    assert(all.skip(0) == all);
    rest
}

impl ReadDir {
    /// A listing that hands out `results` from first to last.
    pub fn new(results: Vec<EntryResult>) -> (r: Self)
        ensures
            r@ == results@,
    {
        let rest = reversed(results);
        assert(rest@.reverse() =~= results@);
        ReadDir { rest }
    }

    /// How many results are left.
    pub fn len(&self) -> (r: usize)
        ensures
            r == self@.len(),
    {
        self.rest.len()
    }

    /// Whether every result has been handed out.
    pub fn is_done(&self) -> (r: bool)
        ensures
            r == (self@.len() == 0),
    {
        self.rest.len() == 0
    }

    /// The `i`-th of the results that are left.
    pub fn get(&self, i: usize) -> (r: &EntryResult)
        requires
            i < self@.len(),
        ensures
            *r == self@[i as int],
    {
        &self.rest[self.rest.len() - 1 - i]
    }

    /// Hands out the next result, or `None` once the listing is done.
    pub fn next(&mut self) -> (r: Option<EntryResult>)
        ensures
            old(self)@.len() == 0 ==> r is None && final(self)@ == old(self)@,
            old(self)@.len() > 0 ==> r == Some(old(self)@[0]) && final(self)@ == old(self)@.drop_first(),
    {
        let r = self.rest.pop();
        assert(old(self)@.len() > 0 ==> self.rest@.reverse() =~= old(self).rest@.reverse().drop_first());
        r
    }
}

} // verus!
