use vstd::prelude::*;

verus! {

/// Hands out identifiers: each call of `next` gives the current counter and advances it.
/// A fresh generator starts at 1, so that 0 stays free for the null identifier.
#[derive(Debug)]
pub struct IdGenerator {
    counter: usize,
}

impl IdGenerator {
    /// The value that the next call of `next` gives.
    pub closed spec fn peek(&self) -> nat {
        self.counter as nat
    }

    pub fn new() -> (g: IdGenerator)
        ensures
            g.peek() == 1,
    {
        IdGenerator { counter: 1 }
    }

    /// Gives the counter and advances it by one (wrapping at the top of `usize`).
    pub fn next(&mut self) -> (id: usize)
        ensures
            id == old(self).peek(),
            final(self).peek() == if old(self).peek() == usize::MAX {
                0
            } else {
                old(self).peek() + 1
            },
    {
        let id = self.counter;
        self.counter = self.counter.wrapping_add(1);
        id
    }
}

/// Identifier of a coordinate of a path. The value 0 is the null identifier.
#[derive(Debug, Clone, Copy, PartialEq, Eq, Structural, Hash, PartialOrd, Ord, Default)]
pub struct CoordId {
    id: usize,
}

/// Identifier of a layer of a scene. The value 0 is the null identifier.
#[derive(Debug, Clone, Copy, PartialEq, Eq, Structural, Hash, PartialOrd, Ord, Default)]
pub struct LayerId {
    id: usize,
}

impl CoordId {
    pub closed spec fn spec_value(&self) -> usize {
        self.id
    }

    /// The identifier that stands for "no coordinate".
    pub fn null() -> (c: CoordId)
        ensures
            c.spec_value() == 0,
    {
        CoordId { id: 0 }
    }

    /// A new identifier, taken from `ids`.
    pub fn new(ids: &mut IdGenerator) -> (c: CoordId)
        ensures
            c.spec_value() == old(ids).peek(),
            final(ids).peek() == if old(ids).peek() == usize::MAX {
                0
            } else {
                old(ids).peek() + 1
            },
    {
        CoordId { id: ids.next() }
    }

    /// Gives this identifier a new value, taken from `ids`.
    pub fn update(&mut self, ids: &mut IdGenerator)
        ensures
            final(self).spec_value() == old(ids).peek(),
            final(ids).peek() == if old(ids).peek() == usize::MAX {
                0
            } else {
                old(ids).peek() + 1
            },
    {
        self.id = ids.next();
    }

    pub fn value(&self) -> (v: usize)
        ensures
            v == self.spec_value(),
    {
        self.id
    }

    /// The identifier whose value is `id`.
    pub closed spec fn spec_from_value(id: usize) -> CoordId {
        CoordId { id }
    }

    /// An identifier is the one of its own value.
    pub proof fn lemma_from_value(c: CoordId)
        ensures
            c == CoordId::spec_from_value(c.spec_value()),
            CoordId::spec_from_value(c.spec_value()).spec_value() == c.spec_value(),
    {
    }

    /// Two identifiers are the same exactly when their values are.
    pub proof fn lemma_value_injective(a: CoordId, b: CoordId)
        ensures
            a == b <==> a.spec_value() == b.spec_value(),
    {
    }

    pub fn from_value(id: usize) -> (c: CoordId)
        ensures
            c.spec_value() == id,
    {
        CoordId { id }
    }
}

impl LayerId {
    pub closed spec fn spec_value(&self) -> usize {
        self.id
    }

    /// The identifier that stands for "no layer".
    pub fn null() -> (l: LayerId)
        ensures
            l.spec_value() == 0,
    {
        LayerId { id: 0 }
    }

    /// A new identifier, taken from `ids`.
    pub fn new(ids: &mut IdGenerator) -> (l: LayerId)
        ensures
            l.spec_value() == old(ids).peek(),
            final(ids).peek() == if old(ids).peek() == usize::MAX {
                0
            } else {
                old(ids).peek() + 1
            },
    {
        LayerId { id: ids.next() }
    }

    /// Gives this identifier a new value, taken from `ids`.
    pub fn update(&mut self, ids: &mut IdGenerator)
        ensures
            final(self).spec_value() == old(ids).peek(),
            final(ids).peek() == if old(ids).peek() == usize::MAX {
                0
            } else {
                old(ids).peek() + 1
            },
    {
        self.id = ids.next();
    }

    pub fn value(&self) -> (v: usize)
        ensures
            v == self.spec_value(),
    {
        self.id
    }

    /// Two identifiers are the same exactly when their values are.
    pub proof fn lemma_value_injective(a: LayerId, b: LayerId)
        ensures
            a == b <==> a.spec_value() == b.spec_value(),
    {
    }

    pub fn from_value(id: usize) -> (l: LayerId)
        ensures
            l.spec_value() == id,
    {
        LayerId { id }
    }
}

impl From<usize> for CoordId {
    fn from(id: usize) -> (c: CoordId) {
        CoordId { id }
    }
}

impl vstd::std_specs::convert::FromSpecImpl<usize> for CoordId {
    open spec fn obeys_from_spec() -> bool {
        true
    }

    closed spec fn from_spec(id: usize) -> CoordId {
        CoordId { id }
    }
}

impl From<usize> for LayerId {
    fn from(id: usize) -> (l: LayerId) {
        LayerId { id }
    }
}

impl vstd::std_specs::convert::FromSpecImpl<usize> for LayerId {
    open spec fn obeys_from_spec() -> bool {
        true
    }

    closed spec fn from_spec(id: usize) -> LayerId {
        LayerId { id }
    }
}

}
