//! The batch of input records that one command line is built from.

use vstd::prelude::*;

verus! {

/// How many records a batch holds before it is full.
#[derive(Debug, Clone, Copy, PartialEq, Eq, Structural)]
pub enum Limit {
    Limit(u32),
    Unlimited,
}

impl Limit {
    /// A bound is positive.
    pub open spec fn wf(&self) -> bool {
        match self {
            Limit::Limit(n) => *n > 0,
            Limit::Unlimited => true,
        }
    }

    /// Whether a batch of `count` records has reached the limit.
    pub open spec fn reached(&self, count: nat) -> bool {
        match self {
            Limit::Limit(n) => count >= *n,
            Limit::Unlimited => false,
        }
    }

    /// How much room to set aside for a batch under this limit.
    pub fn hint(&self) -> (n: usize)
        ensures
            n == match self {
                Limit::Unlimited => 64,
                Limit::Limit(limit) => *limit as int,
            },
    {
        match self {
            Limit::Unlimited => 64,
            Limit::Limit(limit) => {
                let l: u32 = *limit;
                l as usize
            },
        }
    }
}

impl vstd::std_specs::convert::FromSpecImpl<u32> for Limit {
    open spec fn obeys_from_spec() -> bool {
        true
    }

    open spec fn from_spec(s: u32) -> Limit {
        if s == 0 {
            Limit::Unlimited
        } else {
            Limit::Limit(s)
        }
    }
}

impl From<u32> for Limit {
    /// Zero stands for no limit, any other number for itself.
    fn from(s: u32) -> (limit: Limit)
        ensures
            limit.wf(),
    {
        match s {
            0 => Limit::Unlimited,
            _ => Limit::Limit(s),
        }
    }
}

/// Input records gathered for the next command line, under a limit.
pub struct Collector {
    limit: Limit,
    store: Vec<String>,
}

impl View for Collector {
    type V = Seq<Seq<char>>;

    closed spec fn view(&self) -> Seq<Seq<char>> {
        Seq::new(self.store@.len(), |i: int| self.store@[i]@)
    }
}

impl Collector {
    /// The limit this batch is held to.
    pub closed spec fn limit(&self) -> Limit {
        self.limit
    }

    /// An empty batch under the given limit, whose bound is positive.
    pub fn new(limit: Limit) -> (c: Collector)
        requires
            limit.wf(),
        ensures
            c@ == Seq::<Seq<char>>::empty(),
            c.limit() == limit,
    {
        let store: Vec<String> = Vec::with_capacity(limit.hint());
        let c = Collector { limit, store };
        proof {
            assert(c@ =~= Seq::<Seq<char>>::empty());
        }
        c
    }

    /// Whether the batch has reached its limit.
    pub fn full(&self) -> (r: bool)
        ensures
            r == self.limit().reached(self@.len()),
    {
        match self.limit {
            Limit::Limit(limit) => self.store.len() >= limit as usize,
            Limit::Unlimited => false,
        }
    }

    /// Adds a record at the end of the batch.
    pub fn push(&mut self, text: String)
        ensures
            final(self)@ == old(self)@.push(text@),
            final(self).limit() == old(self).limit(),
    {
        self.store.push(text);
        proof {
            assert(self@ =~= old(self)@.push(text@));
        }
    }

    /// The records of the batch, in the order in which they came.
    pub fn refs(&self) -> (v: Vec<&str>)
        ensures
            v@.len() == self@.len(),
            forall|i: int| 0 <= i < v@.len() ==> v@[i]@ == self@[i],
    {
        let mut out: Vec<&str> = Vec::with_capacity(self.store.len());
        let mut i: usize = 0;
        while i < self.store.len()
            invariant
                i <= self.store@.len(),
                out@.len() == i,
                forall|j: int| 0 <= j < i ==> out@[j]@ == self.store@[j]@,
            decreases self.store@.len() - i,
        {
            out.push(self.store[i].as_str());
            i = i + 1;
        }
        out
    }

    /// Empties the batch; the limit stays.
    pub fn clear(&mut self)
        ensures
            final(self)@ == Seq::<Seq<char>>::empty(),
            final(self).limit() == old(self).limit(),
    {
        self.store.clear();
        proof {
            assert(self@ =~= Seq::<Seq<char>>::empty());
        }
    }

    /// Whether the batch holds no record.
    pub fn is_empty(&self) -> (r: bool)
        ensures
            r == (self@.len() == 0),
    {
        self.store.len() == 0
    }
}

} // verus!
