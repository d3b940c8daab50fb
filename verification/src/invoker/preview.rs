//! Argument vectors that are ready to run.

use std::borrow::Cow;
use vstd::prelude::*;
use vstd::string::*;

verus! {

/// The texts of a list of arguments, in order.
pub open spec fn texts<'a>(args: Seq<Cow<'a, str>>) -> Seq<Seq<char>> {
    Seq::new(args.len(), |i: int| args[i]@)
}

/// The arguments joined by single spaces, as they are shown to a user.
pub open spec fn rendered(args: Seq<Seq<char>>) -> Seq<char>
    decreases args.len(),
{
    if args.len() == 0 {
        Seq::<char>::empty()
    } else if args.len() == 1 {
        args[0]
    } else {
        rendered(args.drop_last()) + seq![' '] + args.last()
    }
}

/// An argument vector for one run. Its values may be lent by the batch
/// they were taken from, so it lives no longer than that batch.
pub struct Preview<'a> {
    args: Vec<Cow<'a, str>>,
}

/// An argument vector that owns all of its values, and so can be handed
/// to another thread.
#[derive(Debug)]
pub struct DetachedPreview {
    args: Vec<String>,
}

impl<'a> View for Preview<'a> {
    type V = Seq<Seq<char>>;

    closed spec fn view(&self) -> Seq<Seq<char>> {
        texts(self.args@)
    }
}

impl View for DetachedPreview {
    type V = Seq<Seq<char>>;

    closed spec fn view(&self) -> Seq<Seq<char>> {
        Seq::new(self.args@.len(), |i: int| self.args@[i]@)
    }
}

impl<'a> Preview<'a> {
    /// The argument vector with the given values.
    pub fn new(args: Vec<Cow<'a, str>>) -> (p: Preview<'a>)
        ensures
            p@ == texts(args@),
    {
        Preview { args }
    }

    /// The same arguments, each one owned.
    pub fn detach(&self) -> (d: DetachedPreview)
        ensures
            d@ == self@,
    {
        let mut args: Vec<String> = Vec::new();
        let mut i: usize = 0;
        while i < self.args.len()
            invariant
                i <= self.args@.len(),
                args@.len() == i,
                forall|j: int| 0 <= j < i ==> args@[j]@ == self.args@[j]@,
            decreases self.args@.len() - i,
        {
            let owned = match &self.args[i] {
                Cow::Borrowed(b) => String::from_str(b),
                Cow::Owned(o) => o.clone(),
            };
            args.push(owned);
            i = i + 1;
        }
        let d = DetachedPreview { args };
        proof {
            assert(d@ =~= self@);
        }
        d
    }

    /// The arguments as borrowed texts, in order.
    pub fn as_strs(&self) -> (v: Vec<&str>)
        ensures
            v@.len() == self@.len(),
            forall|i: int| 0 <= i < v@.len() ==> v@[i]@ == self@[i],
    {
        let mut vec: Vec<&str> = Vec::with_capacity(capacity_of(&self.args));
        let mut i: usize = 0;
        while i < self.args.len()
            invariant
                i <= self.args@.len(),
                vec@.len() == i,
                forall|j: int| 0 <= j < i ==> vec@[j]@ == self.args@[j]@,
            decreases self.args@.len() - i,
        {
            let s: &str = match &self.args[i] {
                Cow::Borrowed(b) => b,
                Cow::Owned(o) => o.as_str(),
            };
            vec.push(s);
            i = i + 1;
        }
        vec
    }

    /// The command line as text: the arguments, a space between each two.
    pub fn render(&self) -> (s: String)
        ensures
            s@ == rendered(self@),
    {
        let mut out = String::new();
        let mut i: usize = 0;
        while i < self.args.len()
            invariant
                i <= self.args@.len(),
                out@ == rendered(self@.take(i as int)),
                self@ == texts(self.args@),
            decreases self.args@.len() - i,
        {
            let s: &str = match &self.args[i] {
                Cow::Borrowed(b) => b,
                Cow::Owned(o) => o.as_str(),
            };
            proof {
                let now = self@.take(i + 1);
                assert(now.drop_last() =~= self@.take(i as int));
                assert(now.last() == s@);
                assert(seq![' '] =~= " "@) by {
                    reveal_strlit(" ");
                }
                if i == 0 {
                    assert(out@ + s@ =~= s@);
                }
            }
            if i > 0 {
                out.append(" ");
            }
            out.append(s);
            i = i + 1;
        }
        proof {
            assert(self@.take(i as int) =~= self@);
        }
        out
    }
}

impl DetachedPreview {
    /// The arguments, in order.
    pub fn args(&self) -> (v: &Vec<String>)
        ensures
            v@.len() == self@.len(),
            forall|i: int| 0 <= i < v@.len() ==> v@[i]@ == self@[i],
    {
        &self.args
    }

    /// The command line as text: the arguments, a space between each two.
    pub fn render(&self) -> (s: String)
        ensures
            s@ == rendered(self@),
    {
        let mut out = String::new();
        let mut i: usize = 0;
        while i < self.args.len()
            invariant
                i <= self.args@.len(),
                out@ == rendered(self@.take(i as int)),
                self@ == Seq::new(self.args@.len(), |i: int| self.args@[i]@),
            decreases self.args@.len() - i,
        {
            let s: &str = self.args[i].as_str();
            proof {
                let now = self@.take(i + 1);
                assert(now.drop_last() =~= self@.take(i as int));
                assert(now.last() == s@);
                assert(seq![' '] =~= " "@) by {
                    reveal_strlit(" ");
                }
                if i == 0 {
                    assert(out@ + s@ =~= s@);
                }
            }
            if i > 0 {
                out.append(" ");
            }
            out.append(s);
            i = i + 1;
        }
        proof {
            assert(self@.take(i as int) =~= self@);
        }
        out
    }
}

/// `Vec::capacity`: how many values the vector has room for. Nothing is
/// promised of the number.
#[verifier::external_body]
pub(crate) fn capacity_of<'a>(v: &Vec<Cow<'a, str>>) -> (n: usize) {
    v.capacity()
}

} // verus!
