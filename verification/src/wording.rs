//! A wording: the group of consecutive words that is one node of the chain.

use vstd::prelude::*;
use crate::text::{joined, texts};

verus! {

/// What a wording is in contracts: its words, in order.
pub type Words = Seq<Seq<char>>;

/// The written form of a wording: its words with one space between each two.
pub open spec fn text_of(w: Words) -> Seq<char> {
    joined(w, seq![' '])
}

/// The views of a sequence of wordings, in order.
pub open spec fn wordings(v: Seq<Wording>) -> Seq<Words> {
    Seq::new(v.len(), |i: int| v[i]@)
}

/// The smallest amount of wording that can stand for a state of the chain.
#[derive(Clone, Debug, PartialEq, Eq, Hash, PartialOrd, Ord)]
pub struct Wording {
    words: Vec<String>,
}

impl View for Wording {
    type V = Words;

    closed spec fn view(&self) -> Words {
        texts(self.words@)
    }
}

impl Wording {
    /// The wording made of `words`, in their order.
    pub fn new(words: Vec<String>) -> (r: Wording)
        ensures
            r@ == texts(words@),
    {
        Wording { words }
    }

    /// The number of words.
    pub fn len(&self) -> (n: usize)
        ensures
            n == self@.len(),
    {
        self.words.len()
    }

    /// Whether two wordings hold the same words in the same order.
    pub fn same(&self, other: &Wording) -> (b: bool)
        ensures
            b == (self@ == other@),
    {
        if self.words.len() != other.words.len() {
            assert(self@.len() != other@.len());
            return false;
        }
        let mut i: usize = 0;
        while i < self.words.len()
            invariant
                self.words@.len() == other.words@.len(),
                i <= self.words@.len(),
                forall|k: int| 0 <= k < i ==> self@[k] == other@[k],
            decreases self.words@.len() - i,
        {
            if self.words[i] != other.words[i] {
                assert(self@[i as int] != other@[i as int]);
                return false;
            }
            i += 1;
        }
        assert(self@ =~= other@);
        true
    }

    /// A copy of this wording.
    pub fn duplicate(&self) -> (r: Wording)
        ensures
            r@ == self@,
    {
        let mut words: Vec<String> = Vec::new();
        let mut i: usize = 0;
        while i < self.words.len()
            invariant
                i <= self.words@.len(),
                words@.len() == i,
                forall|k: int| 0 <= k < i ==> words@[k]@ == self.words@[k]@,
            decreases self.words@.len() - i,
        {
            words.push(self.words[i].clone());
            i += 1;
        }
        assert(texts(words@) =~= texts(self.words@));
        Wording { words }
    }

    /// The written form: the words with one space between each two.
    pub fn to_string(&self) -> (r: String)
        ensures
            r@ == text_of(self@),
    {
        let mut out = String::new();
        let mut i: usize = 0;
        proof {
            reveal_strlit(" ");
            assert(" "@ =~= seq![' ']);
        }
        while i < self.words.len()
            invariant
                i <= self.words@.len(),
                " "@ == seq![' '],
                out@ == text_of(self@.take(i as int)),
            decreases self.words@.len() - i,
        {
            proof {
                assert(self@.take(i + 1).drop_last() =~= self@.take(i as int));
                assert(self@.take(i + 1).last() == self.words@[i as int]@);
            }
            if i > 0 {
                out.append(" ");
            } else {
                assert(out@ + self.words@[i as int]@ =~= self.words@[i as int]@);
            }
            out.append(self.words[i].as_str());
            i += 1;
        }
        assert(self@.take(i as int) =~= self@);
        out
    }
}

} // verus!
