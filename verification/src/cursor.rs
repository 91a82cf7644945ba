//! A cursor over a borrowed sequence: peek without consuming, or consume and
//! move forward. It never moves back.
use vstd::prelude::*;

verus! {

/// How many items are left from index `pos` on in a sequence of length `len`.
pub open spec fn left(len: nat, pos: int) -> nat {
    if pos < len {
        (len - pos) as nat
    } else {
        0
    }
}

/// `part` stands in `whole` from index `pos` on.
pub open spec fn occurs_at<T>(whole: Seq<T>, pos: int, part: Seq<T>) -> bool {
    &&& 0 <= pos
    &&& pos + part.len() <= whole.len()
    &&& forall|k: int| 0 <= k < part.len() ==> whole[pos + k] == #[trigger] part[k]
}

/// Where two parts in a row stand at `pos`, the first stands at `pos` and
/// the second right behind it.
pub proof fn lemma_occurs_at_concat<T>(whole: Seq<T>, pos: int, a: Seq<T>, b: Seq<T>)
    requires
        occurs_at(whole, pos, a + b),
    ensures
        occurs_at(whole, pos, a),
        occurs_at(whole, pos + a.len(), b),
{
    let ab = a + b;
    assert forall|k: int| 0 <= k < a.len() implies whole[pos + k] == #[trigger] a[k] by {
        assert(ab[k] == a[k]);
    }
    assert forall|k: int| 0 <= k < b.len() implies whole[pos + a.len() + k] == #[trigger] b[k] by {
        assert(ab[a.len() + k] == b[k]);
    }
}

/// A position in a borrowed sequence of items. The position is never past
/// the end of the sequence.
pub struct Cursor<'a, T> {
    items: &'a [T],
    pos: usize,
}

impl<'a, T> Cursor<'a, T> {
    #[verifier::type_invariant]
    spec fn in_bounds(self) -> bool {
        self.pos <= self.items@.len()
    }

    /// The whole sequence the cursor runs over.
    pub closed spec fn items(self) -> Seq<T> {
        self.items@
    }

    /// The index of the next item to be consumed, at most the number of
    /// items.
    pub closed spec fn index(self) -> int {
        if self.pos <= self.items@.len() {
            self.pos as int
        } else {
            self.items@.len() as int
        }
    }

    /// The index is never past the end of the items.
    pub proof fn lemma_in_bounds(self)
        ensures
            0 <= self.index() <= self.items().len(),
    {
    }

    /// A cursor at the start of `items`.
    pub fn new(items: &'a [T]) -> (cursor: Self)
        ensures
            cursor.items() == items@,
            cursor.index() == 0,
    {
        Cursor { items, pos: 0 }
    }

    /// The index of the next item to be consumed.
    pub fn position(&self) -> (pos: usize)
        ensures
            pos == self.index(),
            pos <= self.items().len(),
    {
        proof {
            use_type_invariant(self);
        }
        self.pos
    }

    /// The next item, without consuming it; `None` at the end.
    pub fn peek(&self) -> (item: Option<&'a T>)
        ensures
            0 <= self.index() <= self.items().len(),
            match item {
                Some(t) => self.index() < self.items().len() && *t == self.items()[self.index()],
                None => self.index() == self.items().len(),
            },
    {
        proof {
            use_type_invariant(self);
        }
        if self.pos < self.items.len() {
            Some(&self.items[self.pos])
        } else {
            None
        }
    }

    /// Consumes the next item and returns it; at the end returns `None` and
    /// stays where it is.
    pub fn next(&mut self) -> (item: Option<&'a T>)
        ensures
            final(self).items() == old(self).items(),
            0 <= old(self).index() <= old(self).items().len(),
            match item {
                Some(t) => {
                    &&& old(self).index() < old(self).items().len()
                    &&& *t == old(self).items()[old(self).index()]
                    &&& final(self).index() == old(self).index() + 1
                },
                None => {
                    &&& old(self).index() == old(self).items().len()
                    &&& final(self).index() == old(self).index()
                },
            },
    {
        proof {
            use_type_invariant(&*self);
        }
        if self.pos < self.items.len() {
            let item = &self.items[self.pos];
            self.pos = self.pos + 1;
            Some(item)
        } else {
            None
        }
    }
}

} // verus!
