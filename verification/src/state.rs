//! What was seen to follow one wording, and how often.

use vstd::prelude::*;
use crate::wording::{Wording, Words};

verus! {

/// How often `w` is counted in `m`: nothing, where `m` does not hold it.
pub open spec fn tally(m: Map<Words, nat>, w: Words) -> nat {
    if m.contains_key(w) {
        m[w]
    } else {
        0
    }
}

/// The number of times that one wording was found right after another: an
/// arc of the chain.
#[derive(Clone, Debug, PartialEq, Eq, Hash, PartialOrd, Ord)]
pub struct Transition {
    count: usize,
}

impl View for Transition {
    type V = nat;

    closed spec fn view(&self) -> nat {
        self.count as nat
    }
}

impl Default for Transition {
    fn default() -> (r: Transition)
        ensures
            r@ == 0,
    {
        Transition { count: 0 }
    }
}

impl Transition {
    /// The number of occurrences.
    pub fn count(&self) -> (n: usize)
        ensures
            n == self@,
    {
        self.count
    }
}

/// The transitions that leave one wording: each wording that followed it,
/// kept in the order of its first occurrence, with its count.
#[derive(Clone, Debug)]
pub struct State {
    nexts: Vec<(Wording, Transition)>,
}

impl View for State {
    type V = Map<Words, nat>;

    closed spec fn view(&self) -> Map<Words, nat> {
        Map::new(
            |w: Words| self.successors().contains(w),
            |w: Words| self.nexts@[self.successors().index_of(w)].1.count as nat,
        )
    }
}

impl Default for State {
    fn default() -> (r: State)
        ensures
            r.wf(),
            r@ == Map::<Words, nat>::empty(),
            r.successors() == Seq::<Words>::empty(),
            r.capped(0),
    {
        let r = State { nexts: Vec::new() };
        assert(r@ =~= Map::<Words, nat>::empty());
        assert(r.successors() =~= Seq::<Words>::empty());
        r
    }
}

impl State {
    /// The successors, in the order in which each was first seen.
    pub closed spec fn successors(&self) -> Seq<Words> {
        Seq::new(self.nexts@.len(), |i: int| self.nexts@[i].0@)
    }

    /// No successor is held twice, and each was seen at least once.
    pub closed spec fn wf(&self) -> bool {
        &&& self.successors().no_duplicates()
        &&& forall|i: int| 0 <= i < self.nexts@.len() ==> (#[trigger] self.nexts@[i]).1.count >= 1
    }

    /// No count is above `limit`.
    pub closed spec fn capped(&self, limit: nat) -> bool {
        forall|i: int| 0 <= i < self.nexts@.len() ==> (#[trigger] self.nexts@[i]).1.count <= limit
    }

    proof fn lemma_at(&self, i: int)
        requires
            self.wf(),
            0 <= i < self.nexts@.len(),
        ensures
            self.successors()[i] == self.nexts@[i].0@,
            self@.contains_key(self.nexts@[i].0@),
            self@[self.nexts@[i].0@] == self.nexts@[i].1.count,
    {
        let w = self.successors()[i];
        assert(self.successors().contains(w));
        let j = self.successors().index_of(w);
        assert(self.successors()[j] == w);
        assert(j == i);
    }

    /// The map and the sequence hold the same successors, each once and with
    /// a count of at least one.
    pub proof fn lemma_successors(&self)
        requires
            self.wf(),
        ensures
            self.successors().no_duplicates(),
            self@.dom().finite(),
            self@.dom() == self.successors().to_set(),
            self@.dom().len() == self.successors().len(),
            forall|w: Words| #[trigger] self@.contains_key(w) ==> self@[w] >= 1,
    {
        assert(self@.dom() =~= self.successors().to_set());
        self.successors().unique_seq_to_set();
        assert forall|w: Words| #[trigger] self@.contains_key(w) implies self@[w] >= 1 by {
            let j = self.successors().index_of(w);
            self.lemma_at(j);
        }
    }

    /// A count that `limit` caps is at most `limit`.
    pub proof fn lemma_capped(&self, limit: nat, w: Words)
        requires
            self.wf(),
            self.capped(limit),
        ensures
            tally(self@, w) <= limit,
    {
        if self@.contains_key(w) {
            let j = self.successors().index_of(w);
            self.lemma_at(j);
        }
    }

    /// A higher limit caps what a lower one does.
    pub proof fn lemma_capped_grows(&self, limit: nat, higher: nat)
        requires
            self.capped(limit),
            limit <= higher,
        ensures
            self.capped(higher),
    {
    }

    /// The number of successors.
    pub fn len(&self) -> (n: usize)
        ensures
            n == self.successors().len(),
    {
        self.nexts.len()
    }

    /// The successor at `index` in the order of first occurrence, if there
    /// are that many.
    pub fn successor_at(&self, index: usize) -> (r: Option<&Wording>)
        ensures
            index >= self.successors().len() ==> r is None,
            index < self.successors().len() ==> r is Some && r.unwrap()@ == self.successors()[index as int],
            index < self.successors().len() && self.wf() ==> self@.contains_key(r.unwrap()@),
    {
        if index < self.nexts.len() {
            proof {
                if self.wf() {
                    self.lemma_at(index as int);
                }
            }
            Some(&self.nexts[index].0)
        } else {
            None
        }
    }

    /// Where `w` stands among the successors, if it does.
    pub fn position(&self, w: &Wording) -> (r: Option<usize>)
        ensures
            match r {
                Some(i) => i < self.successors().len() && self.successors()[i as int] == w@,
                None => !self.successors().contains(w@),
            },
    {
        let mut i: usize = 0;
        while i < self.nexts.len()
            invariant
                i <= self.nexts@.len(),
                forall|k: int| 0 <= k < i ==> self.successors()[k] != w@,
            decreases self.nexts@.len() - i,
        {
            if self.nexts[i].0.same(w) {
                return Some(i);
            }
            i += 1;
        }
        None
    }

    /// How often `w` was seen as a successor: 0 where it never was.
    pub fn count_of(&self, w: &Wording) -> (n: usize)
        requires
            self.wf(),
        ensures
            n == tally(self@, w@),
    {
        match self.position(w) {
            Some(i) => {
                proof {
                    self.lemma_at(i as int);
                }
                self.nexts[i].1.count
            },
            None => 0,
        }
    }

    /// Counts one more occurrence of `w`, which joins the successors at the
    /// end where it is new.
    pub fn bump(&mut self, w: Wording)
        requires
            old(self).wf(),
            tally(old(self)@, w@) < usize::MAX,
        ensures
            final(self).wf(),
            final(self)@ == old(self)@.insert(w@, tally(old(self)@, w@) + 1),
            final(self).successors() == if old(self).successors().contains(w@) {
                old(self).successors()
            } else {
                old(self).successors().push(w@)
            },
            final(self).successors().len() > 0,
            forall|limit: nat| #[trigger]
                old(self).capped(limit) && tally(old(self)@, w@) < limit ==> final(self).capped(
                    limit,
                ),
    {
        let ghost before = *self;
        let ghost key = w@;
        match self.position(&w) {
            Some(i) => {
                proof {
                    before.lemma_at(i as int);
                }
                let c: usize = self.nexts[i].1.count;
                self.nexts.set(i, (w, Transition { count: c + 1 }));
                proof {
                    assert(self.successors() =~= before.successors());
                    assert(before.successors().contains(key));
                    assert forall|x: Words| #[trigger] self@.contains_key(x) implies self@[x]
                        == before@.insert(key, (c + 1) as nat)[x] by {
                        let j = self.successors().index_of(x);
                        self.lemma_at(j);
                        before.lemma_at(j);
                    }
                    assert(self@ =~= before@.insert(key, (c + 1) as nat));
                }
            },
            None => {
                self.nexts.push((w, Transition { count: 1 }));
                proof {
                    assert(self.successors() =~= before.successors().push(key));
                    assert(!before@.contains_key(key));
                    assert forall|x: Words| #[trigger] self@.contains_key(x) implies self@[x]
                        == before@.insert(key, 1nat)[x] by {
                        let j = self.successors().index_of(x);
                        self.lemma_at(j);
                        if j < before.nexts@.len() {
                            before.lemma_at(j);
                        }
                    }
                    assert forall|x: Words| before@.insert(key, 1nat).contains_key(x) implies #[trigger] self@.contains_key(x) by {
                        if x != key {
                            let j = before.successors().index_of(x);
                            assert(self.successors()[j] == x);
                        } else {
                            assert(self.successors()[before.nexts@.len() as int] == key);
                        }
                    }
                    assert(self@ =~= before@.insert(key, 1nat));
                }
            },
        }
    }
}

} // verus!
