//! Label sets: the identity of one time series within a metric family.
//!
//! A label set is an ordered sequence of key/value pairs of text. Two label
//! sets identify the same series exactly when their views agree, pair for
//! pair.

use vstd::prelude::*;

verus! {

/// An ordered sequence of `(key, value)` label pairs.
pub struct LabelSet {
    pub pairs: Vec<(String, String)>,
}

impl View for LabelSet {
    type V = Seq<(Seq<char>, Seq<char>)>;

    open spec fn view(&self) -> Seq<(Seq<char>, Seq<char>)> {
        Seq::new(self.pairs@.len(), |i: int| (self.pairs@[i].0@, self.pairs@[i].1@))
    }
}

impl LabelSet {
    /// The empty label set: a series with no labels at all.
    pub fn empty() -> (r: LabelSet)
        ensures
            r@ == Seq::<(Seq<char>, Seq<char>)>::empty(),
    {
        let r = LabelSet { pairs: Vec::new() };
        proof {
            assert(r@ =~= Seq::<(Seq<char>, Seq<char>)>::empty());
        }
        r
    }

    /// A label set with a single `(key, value)` pair.
    pub fn single(key: &str, value: &str) -> (r: LabelSet)
        ensures
            r@ == seq![(key@, value@)],
    {
        let mut pairs: Vec<(String, String)> = Vec::new();
        pairs.push((key.to_owned(), value.to_owned()));
        let r = LabelSet { pairs };
        proof {
            assert(r@ =~= seq![(key@, value@)]);
        }
        r
    }

    /// Appends one more `(key, value)` pair.
    pub fn push_label(&mut self, key: &str, value: &str)
        ensures
            final(self)@ == old(self)@.push((key@, value@)),
    {
        self.pairs.push((key.to_owned(), value.to_owned()));
        proof {
            assert(self@ =~= old(self)@.push((key@, value@)));
        }
    }

    /// The number of label pairs.
    pub fn len(&self) -> (n: usize)
        ensures
            n == self@.len(),
    {
        self.pairs.len()
    }

    /// Whether two label sets are the same identity: same pairs in the same
    /// order.
    pub fn same_labels(&self, other: &LabelSet) -> (r: bool)
        ensures
            r == (self@ == other@),
    {
        if self.pairs.len() != other.pairs.len() {
            proof {
                assert(self@.len() == self.pairs@.len());
                assert(other@.len() == other.pairs@.len());
            }
            return false;
        }
        let n = self.pairs.len();
        let mut i: usize = 0;
        while i < n
            invariant
                n == self.pairs@.len() == other.pairs@.len(),
                i <= n,
                forall|j: int| 0 <= j < i ==> self@[j] == other@[j],
            decreases n - i,
        {
            let a = &self.pairs[i];
            let b = &other.pairs[i];
            if !(a.0 == b.0) || !(a.1 == b.1) {
                proof {
                    assert(self@[i as int] != other@[i as int]);
                }
                return false;
            }
            i = i + 1;
        }
        proof {
            assert(self@ =~= other@);
        }
        true
    }
}

impl Clone for LabelSet {
    /// A clone is the same identity: its view equals the original's.
    fn clone(&self) -> (r: Self)
        ensures
            r@ == self@,
    {
        let mut pairs: Vec<(String, String)> = Vec::new();
        let n = self.pairs.len();
        let mut i: usize = 0;
        while i < n
            invariant
                n == self.pairs@.len(),
                i <= n,
                pairs@.len() == i,
                forall|j: int| 0 <= j < i ==> pairs@[j] == self.pairs@[j],
            decreases n - i,
        {
            let p = &self.pairs[i];
            pairs.push((p.0.clone(), p.1.clone()));
            i = i + 1;
        }
        let r = LabelSet { pairs };
        proof {
            assert(r@ =~= self@);
        }
        r
    }
}

} // verus!
