//! The chain generator: it learns from lines of text which wordings follow
//! which, and turns a random walk over what it learnt into a string.

use vstd::prelude::*;
use crate::graph::{
    adjacent, chunked, dead_end, is_walk, learn, lemma_learn_counts, lemma_learn_pairs,
    lemma_total_pairs_prefix, line_wordings, observe, outgoing, pairs, rendered, seen, taught,
    total_pairs, untrained, Graph,
};
use crate::state::State;
use crate::text::{split, texts};
use crate::wording::{text_of, wordings, Wording, Words};
use itertools::Itertools;
use rand::Rng;

verus! {

/// Learning parameters.
#[derive(Clone, Copy, Debug, PartialEq, Eq)]
pub struct LearningParameters {
    wording_size: usize,
}

impl LearningParameters {
    /// Parameters that group `wording_size` words into one wording. A size
    /// of 0 groups nothing and is refused.
    pub fn new(wording_size: usize) -> (r: Option<LearningParameters>)
        ensures
            wording_size == 0 ==> r is None,
            wording_size > 0 ==> r is Some && r.unwrap().size() == wording_size,
    {
        if wording_size == 0 {
            None
        } else {
            Some(LearningParameters { wording_size })
        }
    }

    /// The size, in words, of the wordings to learn.
    pub closed spec fn size(&self) -> nat {
        self.wording_size as nat
    }

    #[verifier::type_invariant]
    spec fn positive(&self) -> bool {
        self.wording_size >= 1
    }

    /// The size, in words, of the wordings to learn.
    pub fn wording_size(&self) -> (n: usize)
        ensures
            n == self.size(),
            n >= 1,
    {
        proof {
            use_type_invariant(self);
        }
        self.wording_size
    }
}

/// Chain generation parameters.
#[derive(Clone, Debug, PartialEq, Eq)]
pub struct ChainParameters {
    max_state_traversal: Option<usize>,
}

impl ChainParameters {
    /// Parameters for walks of at most `max_state_traversal` hops, or, with
    /// `None`, for walks that stop only where nothing follows.
    pub fn new(max_state_traversal: Option<usize>) -> (r: ChainParameters)
        ensures
            r.limit() == max_state_traversal,
    {
        ChainParameters { max_state_traversal }
    }

    /// The configured number of hops, if one was given.
    pub closed spec fn limit(&self) -> Option<usize> {
        self.max_state_traversal
    }

    /// The most hops that a walk takes: the configured number, or, where none
    /// was given, as many as a `usize` counts.
    pub open spec fn bound(&self) -> nat {
        match self.limit() {
            Some(n) => n as nat,
            None => usize::MAX as nat,
        }
    }

    /// The configured number of hops, if one was given.
    pub fn max_state_traversal(&self) -> (r: Option<usize>)
        ensures
            r == self.limit(),
    {
        self.max_state_traversal
    }
}

/// Chain generation error.
#[derive(Clone, Debug, PartialEq, Eq)]
pub enum ChainError {
    /// The chain holds too few wordings to start from; the number is how
    /// many it holds.
    TooFewInitialStates(usize),
}

/// A set of Markov states: for each wording that something followed, what
/// followed it. The wordings are kept in the order in which each first had a
/// successor.
#[derive(Clone, Debug)]
pub struct MarkovChainGenerator {
    states: Vec<(Wording, State)>,
    total: usize,
}

impl View for MarkovChainGenerator {
    type V = Graph;

    closed spec fn view(&self) -> Graph {
        Map::new(
            |w: Words| self.keys().contains(w),
            |w: Words| self.states@[self.keys().index_of(w)].1@,
        )
    }
}

/// `itertools::Itertools::chunks` on the words of a line: the words go, in
/// their order, into groups of `size`, the last group taking what is left,
/// and each group becomes one wording. The outside function panics on a
/// size of 0.
#[verifier::external_body]
fn chunk_words(words: Vec<String>, size: usize) -> (r: Vec<Wording>)
    requires
        size > 0,
    ensures
        wordings(r@) == chunked(texts(words@), size as nat),
{
    words.into_iter().chunks(size).into_iter().map(|chunk| Wording::new(chunk.collect())).collect()
}

/// `rand::Rng::gen_range` on the thread's generator, from 0 to `n`: some
/// number below `n`. The outside function panics on an empty range.
#[verifier::external_body]
fn pick_below(n: usize) -> (r: usize)
    requires
        n > 0,
    ensures
        r < n,
{
    rand::thread_rng().gen_range(0, n)
}

impl MarkovChainGenerator {
    /// The wordings that have an entry, in the order in which they got it.
    pub closed spec fn keys(&self) -> Seq<Words> {
        Seq::new(self.states@.len(), |i: int| self.states@[i].0@)
    }

    /// The number of transitions learnt so far, each occurrence counted.
    pub closed spec fn transitions(&self) -> nat {
        self.total as nat
    }

    /// No wording has two entries; each entry holds at least one successor,
    /// each successor once and with a count between one and the number of
    /// transitions learnt.
    pub closed spec fn wf(&self) -> bool {
        &&& self.keys().no_duplicates()
        &&& forall|i: int|
            0 <= i < self.states@.len() ==> {
                &&& (#[trigger] self.states@[i]).1.wf()
                &&& self.states@[i].1.successors().len() > 0
                &&& self.states@[i].1.capped(self.total as nat)
            }
    }

    proof fn lemma_at(&self, i: int)
        requires
            self.wf(),
            0 <= i < self.states@.len(),
        ensures
            self.keys()[i] == self.states@[i].0@,
            self.keys().contains(self.keys()[i]),
            self.keys().index_of(self.keys()[i]) == i,
            self@.contains_key(self.states@[i].0@),
            self@[self.states@[i].0@] == self.states@[i].1@,
    {
        let w = self.keys()[i];
        assert(self.keys().contains(w));
        let j = self.keys().index_of(w);
        assert(self.keys()[j] == w);
        assert(j == i);
    }

    /// The wordings seen to follow `w`, in the order in which each first
    /// did: none, where `w` has no entry.
    pub closed spec fn successors(&self, w: Words) -> Seq<Words> {
        if self.keys().contains(w) {
            self.states@[self.keys().index_of(w)].1.successors()
        } else {
            Seq::empty()
        }
    }

    /// The successors of a wording are the wordings that its entry counts,
    /// each once; a wording has none exactly where a walk can go no further.
    pub proof fn lemma_successors(&self, w: Words)
        requires
            self.wf(),
        ensures
            self.successors(w).no_duplicates(),
            self.successors(w).to_set() == outgoing(self@, w).dom(),
            (self.successors(w).len() == 0) == dead_end(self@, w),
            forall|i: int|
                0 <= i < self.successors(w).len() ==> outgoing(self@, w).contains_key(
                    #[trigger] self.successors(w)[i],
                ),
    {
        if self.keys().contains(w) {
            let j = self.keys().index_of(w);
            self.lemma_at(j);
            let st = self.states@[j].1;
            st.lemma_successors();
            assert forall|i: int| 0 <= i < st.successors().len() implies st@.contains_key(
                #[trigger] st.successors()[i],
            ) by {
                assert(st.successors().contains(st.successors()[i]));
                assert(st.successors().to_set().contains(st.successors()[i]));
            }
            assert(outgoing(self@, w).contains_key(st.successors()[0]));
        } else {
            assert(self.successors(w).to_set() =~= outgoing(self@, w).dom());
        }
    }

    /// What a well-formed chain holds: the keys are the wordings with an
    /// entry, each once; every entry has a successor; and no count is 0 or
    /// above the number of transitions learnt.
    pub proof fn lemma_shape(&self)
        requires
            self.wf(),
        ensures
            self.keys().no_duplicates(),
            self@.dom().finite(),
            self@.dom() == self.keys().to_set(),
            self@.dom().len() == self.keys().len(),
            forall|a: Words| #[trigger] self@.contains_key(a) ==> !dead_end(self@, a),
            forall|a: Words, b: Words|
                self@.contains_key(a) && (#[trigger] self@[a].contains_key(b)) ==> 1 <= self@[a][b]
                    <= self.transitions(),
    {
        assert(self@.dom() =~= self.keys().to_set());
        self.keys().unique_seq_to_set();
        assert forall|a: Words| #[trigger] self@.contains_key(a) implies !dead_end(self@, a) by {
            let j = self.keys().index_of(a);
            self.lemma_at(j);
            let st = self.states@[j].1;
            st.lemma_successors();
            let b = st.successors()[0];
            assert(st.successors().contains(b));
            assert(st.successors().to_set().contains(b));
            assert(outgoing(self@, a).contains_key(b));
        }
        assert forall|a: Words, b: Words|
            self@.contains_key(a) && (#[trigger] self@[a].contains_key(b)) implies 1 <= self@[a][b]
            <= self.transitions() by {
            let j = self.keys().index_of(a);
            self.lemma_at(j);
            let st = self.states@[j].1;
            st.lemma_successors();
            st.lemma_capped(self.total as nat, b);
        }
    }

    /// Create a new empty Markov chain generator.
    pub fn new() -> (r: MarkovChainGenerator)
        ensures
            r.wf(),
            r@ == Map::<Words, Map<Words, nat>>::empty(),
            r.keys() == Seq::<Words>::empty(),
            r.transitions() == 0,
    {
        let r = MarkovChainGenerator { states: Vec::new(), total: 0 };
        assert(r@ =~= Map::<Words, Map<Words, nat>>::empty());
        assert(r.keys() =~= Seq::<Words>::empty());
        r
    }

    /// The number of wordings that have an entry.
    pub fn state_count(&self) -> (n: usize)
        ensures
            n == self.keys().len(),
    {
        self.states.len()
    }

    /// The number of transitions learnt so far, each occurrence counted.
    pub fn transition_count(&self) -> (n: usize)
        ensures
            n == self.transitions(),
    {
        self.total
    }

    /// The wording whose entry is the one at `index`, if there are that many.
    pub fn key_at(&self, index: usize) -> (r: Option<&Wording>)
        ensures
            index >= self.keys().len() ==> r is None,
            index < self.keys().len() ==> r is Some && r.unwrap()@ == self.keys()[index as int],
    {
        if index < self.states.len() {
            Some(&self.states[index].0)
        } else {
            None
        }
    }

    fn position(&self, w: &Wording) -> (r: Option<usize>)
        ensures
            match r {
                Some(i) => i < self.keys().len() && self.keys()[i as int] == w@,
                None => !self.keys().contains(w@),
            },
    {
        let mut i: usize = 0;
        while i < self.states.len()
            invariant
                i <= self.states@.len(),
                forall|k: int| 0 <= k < i ==> self.keys()[k] != w@,
            decreases self.states@.len() - i,
        {
            if self.states[i].0.same(w) {
                return Some(i);
            }
            i += 1;
        }
        None
    }

    /// What was seen to follow `w`, if anything was.
    pub fn state_of(&self, w: &Wording) -> (r: Option<&State>)
        requires
            self.wf(),
        ensures
            r is Some == self@.contains_key(w@),
            r is Some ==> r.unwrap()@ == self@[w@] && r.unwrap().wf() && r.unwrap().successors().len()
                > 0,
            r is Some ==> r.unwrap().successors() == self.successors(w@),
            r is None ==> self.successors(w@).len() == 0,
    {
        match self.position(w) {
            Some(i) => {
                proof {
                    self.lemma_at(i as int);
                }
                Some(&self.states[i].1)
            },
            None => None,
        }
    }

    /// The number of wordings seen to follow `current`: 0 exactly where a
    /// walk that stands on it can go no further.
    pub fn successor_count(&self, current: &Wording) -> (n: usize)
        requires
            self.wf(),
        ensures
            n == self.successors(current@).len(),
            (n == 0) == dead_end(self@, current@),
    {
        proof {
            self.lemma_successors(current@);
        }
        match self.state_of(current) {
            Some(state) => state.len(),
            None => 0,
        }
    }

    /// Where a walk starts when `draw` was drawn: on the wording whose entry
    /// stands at `draw`, counted round the entries. A chain without entries
    /// has nowhere to start.
    pub fn start(&self, draw: usize) -> (r: Result<&Wording, ChainError>)
        requires
            self.wf(),
        ensures
            untrained(self@) ==> r == Err::<&Wording, ChainError>(
                ChainError::TooFewInitialStates(0),
            ),
            !untrained(self@) ==> r is Ok && self@.contains_key(r.unwrap()@) && r.unwrap()@
                == self.keys()[draw as int % self.keys().len() as int],
    {
        let n: usize = self.states.len();
        if n == 0 {
            return Err(ChainError::TooFewInitialStates(0));
        }
        proof {
            self.lemma_at(0);
            self.lemma_at(draw as int % n as int);
        }
        Ok(&self.states[draw % n].0)
    }

    /// Where a walk that stands on `current` goes when `draw` was drawn: to
    /// the successor that stands at `draw`, counted round the successors;
    /// nowhere, exactly where nothing follows `current`.
    pub fn hop(&self, current: &Wording, draw: usize) -> (r: Option<&Wording>)
        requires
            self.wf(),
        ensures
            r is None == dead_end(self@, current@),
            r is Some ==> outgoing(self@, current@).contains_key(r.unwrap()@),
            r is Some ==> r.unwrap()@ == self.successors(current@)[draw as int % self.successors(
                current@,
            ).len() as int],
    {
        proof {
            self.lemma_successors(current@);
        }
        match self.state_of(current) {
            Some(state) => state.successor_at(draw % state.len()),
            None => None,
        }
    }

    /// Counts one more occurrence of `b` right after `a`. Where `a` had no
    /// entry yet it gets one, behind those of the others.
    pub fn record(&mut self, a: Wording, b: Wording)
        requires
            old(self).wf(),
            old(self).transitions() < usize::MAX,
        ensures
            final(self).wf(),
            final(self)@ == observe(old(self)@, a@, b@),
            final(self).transitions() == old(self).transitions() + 1,
            final(self).keys() == if old(self).keys().contains(a@) {
                old(self).keys()
            } else {
                old(self).keys().push(a@)
            },
    {
        let ghost before = *self;
        let ghost ka = a@;
        let ghost kb = b@;
        let ghost cap = self.total as nat;
        match self.position(&a) {
            Some(i) => {
                proof {
                    before.lemma_at(i as int);
                    before.states@[i as int].1.lemma_capped(cap, kb);
                    before.states@[i as int].1.lemma_capped_grows(cap, cap + 1);
                }
                self.states[i].1.bump(b);
                self.total = self.total + 1;
                proof {
                    assert(self.keys() =~= before.keys());
                    assert forall|j: int| 0 <= j < self.states@.len() implies (
                    #[trigger] self.states@[j]).1.capped(cap + 1) by {
                        if j != i {
                            before.states@[j].1.lemma_capped_grows(cap, cap + 1);
                        }
                    }
                    assert(self.wf());
                    assert forall|x: Words| #[trigger] self@.contains_key(x) implies self@[x]
                        == observe(before@, ka, kb)[x] by {
                        let j = self.keys().index_of(x);
                        self.lemma_at(j);
                        before.lemma_at(j);
                    }
                    assert(self@ =~= observe(before@, ka, kb));
                }
            },
            None => {
                let mut st = State::default();
                proof {
                    assert(st.capped(cap + 1)) by {
                        st.lemma_capped_grows(0, cap + 1);
                    }
                }
                st.bump(b);
                self.states.push((a, st));
                self.total = self.total + 1;
                proof {
                    assert(self.keys() =~= before.keys().push(ka));
                    assert forall|j: int| 0 <= j < self.states@.len() implies (
                    #[trigger] self.states@[j]).1.capped(cap + 1) by {
                        if j < before.states@.len() {
                            before.states@[j].1.lemma_capped_grows(cap, cap + 1);
                        }
                    }
                    assert(self.wf());
                    assert(!before@.contains_key(ka));
                    assert forall|x: Words| #[trigger] self@.contains_key(x) implies self@[x]
                        == observe(before@, ka, kb)[x] by {
                        let j = self.keys().index_of(x);
                        self.lemma_at(j);
                        if j < before.states@.len() {
                            before.lemma_at(j);
                        }
                    }
                    assert forall|x: Words| observe(before@, ka, kb).contains_key(x) implies #[trigger] self@.contains_key(x) by {
                        if x != ka {
                            let j = before.keys().index_of(x);
                            assert(self.keys()[j] == x);
                        } else {
                            assert(self.keys()[before.states@.len() as int] == ka);
                        }
                    }
                    assert(self@ =~= observe(before@, ka, kb));
                }
            },
        }
    }

    /// Learns the transitions of one line that is already cut into
    /// wordings: from each wording to the one behind it.
    pub fn train_wordings(&mut self, chunks: &Vec<Wording>)
        requires
            old(self).wf(),
            old(self).transitions() + pairs(chunks@.len()) <= usize::MAX,
        ensures
            final(self).wf(),
            final(self)@ == learn(old(self)@, wordings(chunks@)),
            final(self).transitions() == old(self).transitions() + pairs(chunks@.len()),
    {
        let ghost start = self@;
        let ghost learnt = self.transitions();
        let ghost ws = wordings(chunks@);
        let n: usize = chunks.len();
        if n < 2 {
            return ;
        }
        let mut i: usize = 1;
        while i < n
            invariant
                1 <= i <= n,
                n == chunks@.len(),
                ws == wordings(chunks@),
                self.wf(),
                self@ == learn(start, ws.take(i as int)),
                self.transitions() == learnt + i - 1,
                learnt + n - 1 <= usize::MAX,
            decreases n - i,
        {
            self.record(chunks[i - 1].duplicate(), chunks[i].duplicate());
            proof {
                assert(ws.take(i + 1).drop_last() =~= ws.take(i as int));
            }
            i += 1;
        }
        proof {
            assert(ws.take(n as int) =~= ws);
        }
    }

    /// Split a line into its wordings: the pieces between single spaces, in
    /// groups of the configured size.
    pub fn chunk_line(learn_param: &LearningParameters, line: &str) -> (r: Vec<Wording>)
        ensures
            wordings(r@) == line_wordings(line@, learn_param.size()),
    {
        let size = learn_param.wording_size();
        let words = split(line, ' ');
        chunk_words(words, size)
    }

    /// Cut an input string into wordings and train the generator on it:
    /// every wording but the first is counted once more as a successor of
    /// the one before it. Nothing is ever removed.
    pub fn train(&mut self, learn_param: &LearningParameters, line: &str)
        requires
            old(self).wf(),
            old(self).transitions() + pairs(line_wordings(line@, learn_param.size()).len())
                <= usize::MAX,
        ensures
            final(self).wf(),
            final(self)@ == learn(old(self)@, line_wordings(line@, learn_param.size())),
            final(self).transitions() == old(self).transitions() + pairs(
                line_wordings(line@, learn_param.size()).len(),
            ),
            forall|i: int|
                0 <= i < line_wordings(line@, learn_param.size()).len() - 1 ==> {
                    let from = #[trigger] line_wordings(line@, learn_param.size())[i];
                    let to = line_wordings(line@, learn_param.size())[i + 1];
                    &&& final(self)@.contains_key(from)
                    &&& final(self)@[from].contains_key(to)
                    &&& final(self)@[from][to] >= 1
                },
            forall|a: Words, b: Words| #[trigger]
                seen(final(self)@, a, b) == seen(old(self)@, a, b) + adjacent(
                    line_wordings(line@, learn_param.size()),
                    a,
                    b,
                ),
    {
        let ghost ws = line_wordings(line@, learn_param.size());
        let ghost before = self@;
        let chunks = Self::chunk_line(learn_param, line);
        assert(wordings(chunks@).len() == chunks@.len());
        self.train_wordings(&chunks);
        proof {
            assert forall|i: int| 0 <= i < ws.len() - 1 implies {
                let from = #[trigger] ws[i];
                let to = ws[i + 1];
                &&& self@.contains_key(from)
                &&& self@[from].contains_key(to)
                &&& self@[from][to] >= 1
            } by {
                lemma_learn_pairs(before, ws, i);
            }
            assert forall|a: Words, b: Words| #[trigger]
                seen(self@, a, b) == seen(before, a, b) + adjacent(ws, a, b) by {
                lemma_learn_counts(before, ws, a, b);
            }
        }
    }

    /// Trains on `line` where the count of transitions can take it, and says
    /// whether it did; where it cannot, nothing changes.
    pub fn try_train(&mut self, learn_param: &LearningParameters, line: &str) -> (done: bool)
        requires
            old(self).wf(),
        ensures
            final(self).wf(),
            done == (old(self).transitions() + pairs(
                line_wordings(line@, learn_param.size()).len(),
            ) <= usize::MAX),
            done ==> final(self)@ == learn(old(self)@, line_wordings(line@, learn_param.size())),
            done ==> final(self).transitions() == old(self).transitions() + pairs(
                line_wordings(line@, learn_param.size()).len(),
            ),
            !done ==> *final(self) == *old(self),
    {
        let chunks = Self::chunk_line(learn_param, line);
        assert(wordings(chunks@).len() == chunks@.len());
        let n: usize = chunks.len();
        let needed: usize = if n == 0 {
            0
        } else {
            n - 1
        };
        if needed <= usize::MAX - self.total {
            self.train_wordings(&chunks);
            true
        } else {
            false
        }
    }

    /// Generate a random chain: the written form of a walk that starts on a
    /// wording drawn among those with an entry and goes on, each time to one
    /// drawn among the successors of the wording it stands on, until it has
    /// taken the configured number of hops or stands on a wording that
    /// nothing follows. An empty chain has nowhere to start.
    pub fn generate_chain(&self, chain_param: &ChainParameters) -> (r: Result<String, ChainError>)
        requires
            self.wf(),
        ensures
            untrained(self@) ==> r == Err::<String, ChainError>(ChainError::TooFewInitialStates(0)),
            !untrained(self@) ==> r is Ok && exists|path: Seq<Words>|
                is_walk(self@, path, chain_param.bound()) && r.unwrap()@ == rendered(path),
    {
        let n: usize = self.state_count();
        if n == 0 {
            proof {
                self.lemma_shape();
                assert forall|w: Words| !self@.contains_key(w) by {
                    assert(!self.keys().to_set().contains(w));
                }
            }
            return Err(ChainError::TooFewInitialStates(0));
        }
        let limit: usize = match chain_param.max_state_traversal {
            Some(m) => m,
            None => usize::MAX,
        };
        let mut key: &Wording = match self.start(pick_below(n)) {
            Ok(first) => first,
            Err(e) => {
                return Err(e);
            },
        };
        let mut output: String = key.to_string();
        let ghost mut path: Seq<Words> = seq![key@];
        let mut hops: usize = 0;
        let mut stuck: bool = false;
        proof {
            reveal_strlit(" ");
            assert(" "@ =~= seq![' ']);
            assert(Seq::new(path.len(), |i: int| text_of(path[i]))[0] == text_of(key@));
        }
        while hops < limit && !stuck
            invariant
                self.wf(),
                " "@ == seq![' '],
                hops <= limit,
                path.len() == hops + 1,
                self@.contains_key(path[0]),
                forall|i: int|
                    0 <= i < path.len() - 1 ==> #[trigger] outgoing(self@, path[i]).contains_key(
                        path[i + 1],
                    ),
                path.last() == key@,
                output@ == rendered(path),
                stuck ==> dead_end(self@, key@),
            decreases limit - hops, if stuck { 0int } else { 1int },
        {
            let count: usize = self.successor_count(key);
            if count == 0 {
                stuck = true;
            } else {
                match self.hop(key, pick_below(count)) {
                    None => {
                        stuck = true;
                    },
                    Some(next) => {
                        let ghost longer = path.push(next@);
                        proof {
                            let before = Seq::new(path.len(), |i: int| text_of(path[i]));
                            let after = Seq::new(longer.len(), |i: int| text_of(longer[i]));
                            assert(after.drop_last() =~= before);
                            assert(after.last() == text_of(next@));
                            assert forall|i: int| 0 <= i < longer.len() - 1 implies #[trigger] outgoing(
                                self@,
                                longer[i],
                            ).contains_key(longer[i + 1]) by {
                                if i < path.len() - 1 {
                                    assert(outgoing(self@, path[i]).contains_key(path[i + 1]));
                                }
                            }
                        }
                        output.append(" ");
                        output.append(next.to_string().as_str());
                        key = next;
                        hops = hops + 1;
                        proof {
                            path = longer;
                        }
                    },
                }
            }
        }
        proof {
            assert(is_walk(self@, path, chain_param.bound()));
        }
        Ok(output)
    }

    /// Trains on the lines in their order, up to the first that the count of
    /// transitions cannot take, and says on how many it trained.
    pub fn train_all(&mut self, learn_param: &LearningParameters, lines: &Vec<String>) -> (done:
        usize)
        requires
            old(self).wf(),
        ensures
            final(self).wf(),
            done <= lines@.len(),
            final(self)@ == taught(
                old(self)@,
                texts(lines@).take(done as int),
                learn_param.size(),
            ),
            final(self).transitions() == old(self).transitions() + total_pairs(
                texts(lines@).take(done as int),
                learn_param.size(),
            ),
            done < lines@.len() ==> final(self).transitions() + pairs(
                line_wordings(lines@[done as int]@, learn_param.size()).len(),
            ) > usize::MAX,
            old(self).transitions() + total_pairs(texts(lines@), learn_param.size()) <= usize::MAX
                ==> done == lines@.len(),
    {
        let ghost start = self@;
        let ghost learnt = self.transitions();
        let ghost all = texts(lines@);
        let mut i: usize = 0;
        while i < lines.len()
            invariant
                i <= lines@.len(),
                all == texts(lines@),
                start == old(self)@,
                learnt == old(self).transitions(),
                self.wf(),
                self@ == taught(start, all.take(i as int), learn_param.size()),
                self.transitions() == learnt + total_pairs(all.take(i as int), learn_param.size()),
            decreases lines@.len() - i,
        {
            let ghost held = *self;
            proof {
                assert(all.take(i + 1).last() == lines@[i as int]@);
                assert(all.take(i + 1).drop_last() =~= all.take(i as int));
                lemma_total_pairs_prefix(all, learn_param.size(), i + 1);
            }
            let trained = self.try_train(learn_param, lines[i].as_str());
            if !trained {
                assert(*self == held);
                return i;
            }
            i += 1;
        }
        proof {
            assert(all.take(i as int) =~= all);
        }
        i
    }
}

/// A way to train a Markov chain generator based on a source: it lets a
/// generator learn without knowing the format of what it learns from.
pub trait Trainer {
    /// Adapt to the source and train the generator on what it holds: on
    /// some lines, one after the other, and on nothing else.
    fn source_train(
        &mut self,
        markov_chain_generator: &mut MarkovChainGenerator,
        learn_params: LearningParameters,
    ) -> (r: Result<(), ChainError>)
        requires
            old(markov_chain_generator).wf(),
        ensures
            final(markov_chain_generator).wf(),
            exists|lines: Seq<Seq<char>>|
                {
                    &&& final(markov_chain_generator)@ == #[trigger] taught(
                        old(markov_chain_generator)@,
                        lines,
                        learn_params.size(),
                    )
                    &&& final(markov_chain_generator).transitions() == old(markov_chain_generator).transitions() + total_pairs(lines, learn_params.size())
                },
    ;
}

} // verus!
