//! A read position in a borrowed sequence.

use vstd::prelude::*;

verus! {

/// A borrowed sequence together with a position in it. Items before the
/// position have been consumed; the item at the position is the next one.
pub struct Cursor<'a, T> {
    items: &'a [T],
    position: usize,
}

impl<'a, T> Cursor<'a, T> {
    #[verifier::type_invariant]
    spec fn in_bounds(self) -> bool {
        self.position <= self.items@.len()
    }

    /// The whole sequence, consumed items included.
    pub closed spec fn items(&self) -> Seq<T> {
        self.items@
    }

    /// How many items have been consumed.
    pub closed spec fn position(&self) -> nat {
        if self.position <= self.items@.len() {
            self.position as nat
        } else {
            self.items@.len()
        }
    }

    /// The position never lies beyond the end of the sequence.
    pub proof fn lemma_in_bounds(self)
        ensures
            self.position() <= self.items().len(),
    {
    }

    /// The items not yet consumed.
    pub open spec fn remaining(&self) -> Seq<T> {
        self.items().skip(self.position() as int)
    }

    /// A cursor at the start of `items`.
    pub fn new(items: &'a [T]) -> (cursor: Self)
        ensures
            cursor.items() == items@,
            cursor.position() == 0,
    {
        Cursor { items, position: 0 }
    }

    /// The number of items consumed so far.
    pub fn offset(&self) -> (offset: usize)
        ensures
            offset == self.position(),
            offset <= self.items().len(),
    {
        proof {
            use_type_invariant(self);
        }
        self.position
    }

    /// Moves the cursor back to an earlier position.
    pub fn rewind(&mut self, position: usize)
        requires
            position <= old(self).position(),
        ensures
            final(self).items() == old(self).items(),
            final(self).position() == position,
    {
        proof {
            use_type_invariant(&*self);
        }
        self.position = position;
    }

    /// The next item, which stays unconsumed; `None` at the end.
    pub fn peek(&self) -> (item: Option<&'a T>)
        ensures
            self.position() <= self.items().len(),
            self.position() < self.items().len() ==> item == Some(
                &self.items()[self.position() as int],
            ),
            self.position() == self.items().len() ==> item is None,
    {
        proof {
            use_type_invariant(self);
        }
        if self.position < self.items.len() {
            Some(&self.items[self.position])
        } else {
            None
        }
    }

    /// Consumes and returns the next item; at the end, returns `None` and
    /// leaves the cursor where it is.
    pub fn next(&mut self) -> (item: Option<&'a T>)
        ensures
            final(self).items() == old(self).items(),
            old(self).position() <= old(self).items().len(),
            old(self).position() < old(self).items().len() ==> item == Some(
                &old(self).items()[old(self).position() as int],
            ) && final(self).position() == old(self).position() + 1,
            old(self).position() == old(self).items().len() ==> item is None
                && final(self).position() == old(self).position(),
    {
        proof {
            use_type_invariant(&*self);
        }
        if self.position < self.items.len() {
            let item = &self.items[self.position];
            self.position = self.position + 1;
            Some(item)
        } else {
            None
        }
    }
}

} // verus!
