//! Deterministic finite automata with total transition functions.
//!
//! A DFA is a set of states, an alphabet, a start state, a transition table
//! that is total over states and symbols, and a set of accepting states.
//! Acceptance of a word is defined by the spec function `run_from`, which
//! follows the transition table one symbol at a time.

#![verifier::loop_isolation(false)]
use vstd::prelude::*;
use vstd::set_lib::lemma_len_subset;
use crate::table::dkeys_distinct;
use crate::table::dtable_get;
use crate::table::dtable_has;
use crate::table::dtable_lookup;
use crate::table::lemma_dtable_get;
use crate::table::lemma_dtable_push;
use crate::table::position_of;
use crate::table::vec_all_in;
use crate::table::vec_contains;
use crate::table::vec_no_dups;

verus! {

/// Is every symbol of the word `w` drawn from the alphabet `alpha`?
pub open spec fn word_over(w: Seq<u64>, alpha: Seq<u64>) -> bool {
    forall|i: int| 0 <= i < w.len() ==> alpha.contains(#[trigger] w[i])
}

/// Dropping the first symbol of a word keeps it over the same alphabet.
pub proof fn lemma_word_over_drop_first(w: Seq<u64>, alpha: Seq<u64>)
    requires
        word_over(w, alpha),
        w.len() > 0,
    ensures
        word_over(w.drop_first(), alpha),
{
    assert forall|i: int| 0 <= i < w.drop_first().len() implies alpha.contains(
        #[trigger] w.drop_first()[i],
    ) by {
        assert(w.drop_first()[i] == w[i + 1]);
    }
}

/// Appending an alphabet symbol to a word keeps it over the alphabet.
pub proof fn lemma_word_over_push(w: Seq<u64>, alpha: Seq<u64>, c: u64)
    requires
        word_over(w, alpha),
        alpha.contains(c),
    ensures
        word_over(w.push(c), alpha),
{
    assert forall|i: int| 0 <= i < w.push(c).len() implies alpha.contains(
        #[trigger] w.push(c)[i],
    ) by {
        if i < w.len() {
            assert(w.push(c)[i] == w[i]);
        } else {
            assert(w.push(c)[i] == c);
        }
    }
}

/// A deterministic finite automaton over `u64` states and symbols.
pub struct Dfa {
    pub states: Vec<u64>,
    pub alphabet: Vec<u64>,
    pub start_state: u64,
    pub transitions: Vec<((u64, u64), u64)>,
    pub accepting: Vec<u64>,
}

/// Do `a` and `b` accept the same words over the alphabet `alpha`?
pub open spec fn same_language(a: Dfa, b: Dfa, alpha: Seq<u64>) -> bool {
    forall|w: Seq<u64>| word_over(w, alpha) ==> (#[trigger] a.accepts(w)) == b.accepts(w)
}

/// How a relabelled automaton `r` corresponds to the original `orig` through
/// the list `rs` of reachable original states: position `k` of `rs` becomes
/// state `k`, each transition is carried over with its endpoints rewritten to
/// positions, and the start and accepting states correspond.
pub open spec fn dfa_relabel_rel(orig: Dfa, r: Dfa, rs: Seq<u64>) -> bool {
    &&& rs.no_duplicates()
    &&& forall|x: u64| #[trigger] rs.contains(x) <==> orig.reaches(x)
    &&& forall|x: u64| #[trigger] rs.contains(x) ==> orig.states@.contains(x)
    &&& r.states@.len() == rs.len()
    &&& forall|m: int| 0 <= m < r.states@.len() ==> #[trigger] r.states@[m] == m as u64
    &&& r.alphabet@ == orig.alphabet@
    &&& (r.start_state as int) < rs.len()
    &&& rs[r.start_state as int] == orig.start_state
    &&& forall|ks: u64, c: u64|
        #![trigger r.trans_at(ks, c)]
        #![trigger r.has_trans(ks, c)]
        (ks as int) < rs.len() && orig.alphabet@.contains(c) ==> r.has_trans(ks, c)
            && r.trans_at(ks, c) == rs.index_of(orig.trans_at(rs[ks as int], c)) as u64
    &&& forall|ks: u64|
        #[trigger] r.accepting@.contains(ks) <==> ((ks as int) < rs.len()
            && orig.accepting@.contains(rs[ks as int]))
}

/// The boolean combinator that decides acceptance of a product automaton
/// from the two component automata's acceptance.
#[derive(Clone, Copy)]
pub enum BoolOp {
    Or,
    And,
    AndNot,
    Xor,
}

impl BoolOp {
    /// The boolean function the combinator denotes.
    pub open spec fn eval(self, a: bool, b: bool) -> bool {
        match self {
            BoolOp::Or => a || b,
            BoolOp::And => a && b,
            BoolOp::AndNot => a && !b,
            BoolOp::Xor => a != b,
        }
    }

    /// Compute the combinator on two booleans.
    pub fn apply(self, a: bool, b: bool) -> (r: bool)
        ensures
            r == self.eval(a, b),
    {
        match self {
            BoolOp::Or => a || b,
            BoolOp::And => a && b,
            BoolOp::AndNot => a && !b,
            BoolOp::Xor => a != b,
        }
    }
}

/// In a product of `first` and `second`, the target of the transition out of
/// the pair state numbered `k` on symbol `c`: the pair number of the two
/// component targets.
pub open spec fn prod_target(first: Dfa, second: Dfa, k: int, c: u64) -> u64 {
    let n2 = second.states@.len() as int;
    (first.states@.index_of(first.trans_at(first.states@[k / n2], c)) * n2
        + second.states@.index_of(second.trans_at(second.states@[k % n2], c))) as u64
}

impl Dfa {
    /// Does the transition table hold an edge for `(s, c)`?
    pub open spec fn has_trans(self, s: u64, c: u64) -> bool {
        dtable_has(self.transitions@, (s, c))
    }

    /// The state the table maps `(s, c)` to; meaningful when `has_trans(s, c)`.
    pub open spec fn trans_at(self, s: u64, c: u64) -> u64 {
        dtable_get(self.transitions@, (s, c))
    }

    /// Structural validity as `validate` decides it: duplicate-free
    /// components and distinct table keys (what being a set or a map means
    /// for the vector representation), the start state a state, a transition
    /// table that is total over states and alphabet with targets inside the
    /// state set, and accepting states inside the state set. Entries keyed
    /// outside states and alphabet are ignored, as the lookups ignore them.
    pub open spec fn valid(self) -> bool {
        &&& self.states@.no_duplicates()
        &&& self.alphabet@.no_duplicates()
        &&& self.accepting@.no_duplicates()
        &&& dkeys_distinct(self.transitions@)
        &&& self.states@.contains(self.start_state)
        &&& forall|a: u64| #[trigger] self.accepting@.contains(a) ==> self.states@.contains(a)
        &&& forall|s: u64, c: u64|
            #![trigger self.has_trans(s, c)]
            #![trigger self.trans_at(s, c)]
            self.states@.contains(s) && self.alphabet@.contains(c) ==> self.has_trans(s, c)
                && self.states@.contains(self.trans_at(s, c))
    }

    /// The invariant the constructors establish and the operations assume:
    /// `valid()`, and additionally no table entry keyed outside states and
    /// alphabet. The extra clause is a representation invariant of the
    /// builders, not part of what `validate` diagnoses.
    pub open spec fn wf(self) -> bool {
        &&& self.valid()
        &&& forall|i: int|
            0 <= i < self.transitions@.len() ==> self.states@.contains(
                (#[trigger] self.transitions@[i]).0.0,
            ) && self.alphabet@.contains(self.transitions@[i].0.1)
    }

    /// The state reached from `s` after reading the word `w`.
    pub open spec fn run_from(self, s: u64, w: Seq<u64>) -> u64
        decreases w.len(),
    {
        if w.len() == 0 {
            s
        } else {
            self.run_from(self.trans_at(s, w.first()), w.drop_first())
        }
    }

    /// Does the automaton accept the word `w`?
    pub open spec fn accepts(self, w: Seq<u64>) -> bool {
        self.accepting@.contains(self.run_from(self.start_state, w))
    }

    /// Is the state `x` reached from the start state by some word over the alphabet?
    pub open spec fn reaches(self, x: u64) -> bool {
        exists|w: Seq<u64>|
            word_over(w, self.alphabet@) && self.run_from(self.start_state, w) == x
    }

    /// Running over a word drawn from the alphabet stays inside the state set.
    pub proof fn lemma_run_in_states(self, s: u64, w: Seq<u64>)
        requires
            self.wf(),
            self.states@.contains(s),
            word_over(w, self.alphabet@),
        ensures
            self.states@.contains(self.run_from(s, w)),
        decreases w.len(),
    {
        if w.len() > 0 {
            assert(self.alphabet@.contains(w[0]));
            lemma_word_over_drop_first(w, self.alphabet@);
            self.lemma_run_in_states(self.trans_at(s, w.first()), w.drop_first());
        }
    }

    /// Reading one more symbol makes one more transition step.
    pub proof fn lemma_run_snoc(self, s: u64, w: Seq<u64>, c: u64)
        ensures
            self.run_from(s, w.push(c)) == self.trans_at(self.run_from(s, w), c),
        decreases w.len(),
    {
        if w.len() == 0 {
            assert(w.push(c).first() == c);
            assert(w.push(c).drop_first() =~= Seq::<u64>::empty());
            assert(self.run_from(s, w) == s);
            assert(self.run_from(self.trans_at(s, c), Seq::<u64>::empty()) == self.trans_at(s, c));
        } else {
            assert(w.push(c).first() == w.first());
            assert(w.push(c).drop_first() =~= w.drop_first().push(c));
            self.lemma_run_snoc(self.trans_at(s, w.first()), w.drop_first(), c);
        }
    }

    /// Two automata with the same transition table run identically.
    pub proof fn lemma_run_same_trans(self, other: Dfa, s: u64, w: Seq<u64>)
        requires
            self.transitions@ == other.transitions@,
        ensures
            self.run_from(s, w) == other.run_from(s, w),
        decreases w.len(),
    {
        if w.len() > 0 {
            self.lemma_run_same_trans(other, self.trans_at(s, w.first()), w.drop_first());
        }
    }

    /// Any set of states that contains `s` and is closed under the transition
    /// function contains every state reached from `s`.
    pub proof fn lemma_closed_covers(self, r: Seq<u64>, s: u64, w: Seq<u64>)
        requires
            r.contains(s),
            forall|x: u64, c: u64|
                r.contains(x) && self.alphabet@.contains(c) ==> r.contains(
                    #[trigger] self.trans_at(x, c),
                ),
            word_over(w, self.alphabet@),
        ensures
            r.contains(self.run_from(s, w)),
        decreases w.len(),
    {
        if w.len() > 0 {
            assert(self.alphabet@.contains(w[0]));
            lemma_word_over_drop_first(w, self.alphabet@);
            self.lemma_closed_covers(r, self.trans_at(s, w.first()), w.drop_first());
        }
    }

    /// Follow the transition out of `state` labelled by `symbol`.
    pub fn transition(&self, state: u64, symbol: u64) -> (r: u64)
        requires
            self.wf(),
            self.states@.contains(state),
            self.alphabet@.contains(symbol),
        ensures
            r == self.trans_at(state, symbol),
            self.states@.contains(r),
    {
        match dtable_lookup(&self.transitions, state, symbol) {
            Some(t) => t,
            None => {
                proof {
                    assert(self.has_trans(state, symbol));
                }
                unreached()
            },
        }
    }

    /// Decide whether the automaton is structurally valid, that is,
    /// whether `valid()` holds of it.
    pub fn validate(&self) -> (r: bool)
        ensures
            r == self.valid(),
    {
        if !vec_no_dups(&self.states) {
            return false;
        }
        if !vec_no_dups(&self.alphabet) {
            return false;
        }
        if !vec_no_dups(&self.accepting) {
            return false;
        }
        // distinct transition keys
        let mut i: usize = 0;
        while i < self.transitions.len()
            invariant
                forall|p: int, q: int|
                    0 <= p < q < self.transitions@.len() && p < i ==> (
                    #[trigger] self.transitions@[p]).0 != (#[trigger] self.transitions@[q]).0,
            decreases self.transitions@.len() - i,
        {
            let mut j: usize = i + 1;
            while j < self.transitions.len()
                invariant
                    i < j,
                    forall|q: int|
                        i < q < j ==> self.transitions@[i as int].0 != (
                        #[trigger] self.transitions@[q]).0,
                decreases self.transitions@.len() - j,
            {
                if self.transitions[i].0.0 == self.transitions[j].0.0 && self.transitions[i].0.1
                    == self.transitions[j].0.1 {
                    return false;
                }
                j = j + 1;
            }
            i = i + 1;
        }
        if !vec_contains(&self.states, self.start_state) {
            return false;
        }
        if !vec_all_in(&self.accepting, &self.states) {
            return false;
        }
        // totality over states times alphabet, with targets inside states
        let mut si: usize = 0;
        while si < self.states.len()
            invariant
                forall|p: int, c: u64|
                    #![trigger self.has_trans(self.states@[p], c)]
                    0 <= p < si && self.alphabet@.contains(c) ==> self.has_trans(
                        self.states@[p],
                        c,
                    ) && self.states@.contains(self.trans_at(self.states@[p], c)),
            decreases self.states@.len() - si,
        {
            let mut ci: usize = 0;
            while ci < self.alphabet.len()
                invariant
                    si < self.states@.len(),
                    forall|q: int|
                        0 <= q < ci ==> self.has_trans(
                            self.states@[si as int],
                            #[trigger] self.alphabet@[q],
                        ) && self.states@.contains(
                            self.trans_at(self.states@[si as int], self.alphabet@[q]),
                        ),
                decreases self.alphabet@.len() - ci,
            {
                proof {
                    assert(self.states@.contains(self.states@[si as int]));
                    assert(self.alphabet@.contains(self.alphabet@[ci as int]));
                }
                match dtable_lookup(&self.transitions, self.states[si], self.alphabet[ci]) {
                    None => {
                        proof {
                            assert(!self.has_trans(
                                self.states@[si as int],
                                self.alphabet@[ci as int],
                            ));
                        }
                        return false;
                    },
                    Some(t) => {
                        if !vec_contains(&self.states, t) {
                            proof {
                                assert(self.trans_at(
                                    self.states@[si as int],
                                    self.alphabet@[ci as int],
                                ) == t);
                            }
                            return false;
                        }
                    },
                }
                ci = ci + 1;
            }
            proof {
                assert forall|p: int, c: u64|
                    #![trigger self.has_trans(self.states@[p], c)]
                    0 <= p < si + 1 && self.alphabet@.contains(c) implies self.has_trans(
                    self.states@[p],
                    c,
                ) && self.states@.contains(self.trans_at(self.states@[p], c)) by {
                    if p == si as int {
                        let q = choose|q: int|
                            0 <= q < self.alphabet@.len() && self.alphabet@[q] == c;
                        assert(self.has_trans(self.states@[si as int], self.alphabet@[q])
                            && self.states@.contains(
                            self.trans_at(self.states@[si as int], self.alphabet@[q]),
                        ));
                    }
                }
            }
            si = si + 1;
        }
        proof {
            assert forall|s: u64, c: u64|
                self.states@.contains(s) && self.alphabet@.contains(c) implies self.has_trans(s, c)
                && self.states@.contains(#[trigger] self.trans_at(s, c)) by {
                let p = choose|p: int| 0 <= p < self.states@.len() && self.states@[p] == s;
                assert(self.has_trans(self.states@[p], c));
            }
        }
        true
    }

    /// Read a word symbol by symbol and report whether the final state accepts.
    pub fn parse_string(&self, string: &Vec<u64>) -> (r: bool)
        requires
            self.wf(),
            word_over(string@, self.alphabet@),
        ensures
            r == self.accepts(string@),
    {
        let ghost w = string@;
        let mut state: u64 = self.start_state;
        let mut i: usize = 0;
        while i < string.len()
            invariant
                0 <= i <= string@.len(),
                state == self.run_from(self.start_state, w.subrange(0, i as int)),
                self.states@.contains(state),
            decreases string@.len() - i,
        {
            proof {
                assert(self.alphabet@.contains(w[i as int]));
                self.lemma_run_snoc(self.start_state, w.subrange(0, i as int), w[i as int]);
                assert(w.subrange(0, i as int).push(w[i as int]) =~= w.subrange(0, i as int + 1));
            }
            state = self.transition(state, string[i]);
            i = i + 1;
        }
        proof {
            assert(w.subrange(0, w.len() as int) =~= w);
        }
        vec_contains(&self.accepting, state)
    }

    /// All states that some word over the alphabet leads to from the start state.
    pub fn reachable_states(&self) -> (r: Vec<u64>)
        requires
            self.wf(),
        ensures
            r@.no_duplicates(),
            forall|x: u64| #[trigger] r@.contains(x) ==> self.states@.contains(x),
            forall|x: u64| #[trigger] r@.contains(x) <==> self.reaches(x),
    {
        let mut result: Vec<u64> = Vec::new();
        let mut stack: Vec<u64> = Vec::new();
        stack.push(self.start_state);
        proof {
            assert(word_over(Seq::<u64>::empty(), self.alphabet@));
            assert(self.run_from(self.start_state, Seq::<u64>::empty()) == self.start_state);
            assert(self.reaches(self.start_state));
            assert(stack@[0] == self.start_state);
            assert(stack@.contains(self.start_state));
        }
        while stack.len() > 0
            invariant
                result@.no_duplicates(),
                result@.len() <= self.states@.len(),
                forall|x: u64|
                    #[trigger] result@.contains(x) ==> self.states@.contains(x) && self.reaches(x),
                forall|x: u64|
                    #[trigger] stack@.contains(x) ==> self.states@.contains(x) && self.reaches(x),
                result@.contains(self.start_state) || stack@.contains(self.start_state),
                forall|x: u64, c: u64|
                    result@.contains(x) && self.alphabet@.contains(c) ==> result@.contains(
                        #[trigger] self.trans_at(x, c),
                    ) || stack@.contains(self.trans_at(x, c)),
            decreases self.states@.len() - result@.len(), stack@.len(),
        {
            let ghost old_stack = stack@;
            let x = match stack.pop() {
                Some(v) => v,
                None => unreached(),
            };
            proof {
                assert(old_stack.contains(old_stack.last()));
                assert forall|y: u64| #[trigger] stack@.contains(y) implies old_stack.contains(
                    y,
                ) by {
                    let i = choose|i: int| 0 <= i < stack@.len() && stack@[i] == y;
                    assert(old_stack[i] == y);
                }
            }
            if !vec_contains(&result, x) {
                let ghost pre_result = result@;
                result.push(x);
                let ghost mid_result = result@;
                let ghost post_pop = stack@;
                proof {
                    assert(self.states@.contains(x) && self.reaches(x));
                    assert(mid_result[pre_result.len() as int] == x);
                    assert(mid_result.contains(x));
                    assert forall|y: u64, c: u64|
                        result@.contains(y) && self.alphabet@.contains(c) && y != x
                            implies result@.contains(#[trigger] self.trans_at(y, c))
                            || stack@.contains(self.trans_at(y, c)) by {
                        let i = choose|i: int| 0 <= i < result@.len() && result@[i] == y;
                        if i < pre_result.len() {
                            assert(pre_result[i] == y);
                            assert(pre_result.contains(y));
                        }
                        let t = self.trans_at(y, c);
                        if pre_result.contains(t) {
                            let j = choose|j: int|
                                0 <= j < pre_result.len() && pre_result[j] == t;
                            assert(result@[j] == t);
                            assert(result@.contains(t));
                        } else {
                            assert(old_stack.contains(t));
                            let j = choose|j: int| 0 <= j < old_stack.len() && old_stack[j] == t;
                            if j < old_stack.len() - 1 {
                                assert(stack@[j] == t);
                                assert(stack@.contains(t));
                            } else {
                                assert(t == x);
                                assert(result@.contains(t));
                            }
                        }
                    }
                    if pre_result.contains(self.start_state) {
                        let i = choose|i: int|
                            0 <= i < pre_result.len() && pre_result[i] == self.start_state;
                        assert(result@[i] == self.start_state);
                        assert(result@.contains(self.start_state));
                    } else if old_stack.contains(self.start_state) {
                        let i = choose|i: int|
                            0 <= i < old_stack.len() && old_stack[i] == self.start_state;
                        if i < old_stack.len() - 1 {
                            assert(stack@[i] == self.start_state);
                            assert(stack@.contains(self.start_state));
                        } else {
                            assert(x == self.start_state);
                            assert(result@.contains(self.start_state));
                        }
                    }
                    result@.unique_seq_to_set();
                    self.states@.unique_seq_to_set();
                    assert(result@.to_set().subset_of(self.states@.to_set())) by {
                        assert forall|y: u64| result@.to_set().contains(y)
                            implies self.states@.to_set().contains(y) by {
                            assert(result@.contains(y));
                            let i = choose|i: int| 0 <= i < result@.len() && result@[i] == y;
                            if i < pre_result.len() {
                                assert(pre_result[i] == y);
                                assert(pre_result.contains(y));
                            } else {
                                assert(y == x);
                            }
                            assert(self.states@.contains(y));
                        }
                    }
                    lemma_len_subset(result@.to_set(), self.states@.to_set());
                }
                let mut ai: usize = 0;
                while ai < self.alphabet.len()
                    invariant
                        result@ == mid_result,
                        mid_result.contains(x),
                        forall|y: u64| #[trigger] post_pop.contains(y) ==> stack@.contains(y),
                        forall|y: u64|
                            #[trigger] stack@.contains(y) ==> self.states@.contains(y)
                                && self.reaches(y),
                        forall|q: int|
                            0 <= q < ai ==> result@.contains(
                                #[trigger] self.trans_at(x, self.alphabet@[q]),
                            ) || stack@.contains(self.trans_at(x, self.alphabet@[q])),
                        forall|y: u64, c: u64|
                            result@.contains(y) && self.alphabet@.contains(c) && y != x
                                ==> result@.contains(#[trigger] self.trans_at(y, c))
                                || stack@.contains(self.trans_at(y, c)),
                        result@.contains(self.start_state) || stack@.contains(self.start_state),
                    decreases self.alphabet@.len() - ai,
                {
                    let t = self.transition(x, self.alphabet[ai]);
                    let ghost pre_stack = stack@;
                    stack.push(t);
                    proof {
                        assert forall|y: u64| pre_stack.contains(y) implies #[trigger] stack@.contains(
                            y,
                        ) by {
                            let i = choose|i: int| 0 <= i < pre_stack.len() && pre_stack[i] == y;
                            assert(stack@[i] == y);
                        }
                        assert(stack@[pre_stack.len() as int] == t);
                        assert(stack@.contains(t));
                        let wx = choose|wx: Seq<u64>|
                            word_over(wx, self.alphabet@) && self.run_from(self.start_state, wx)
                                == x;
                        self.lemma_run_snoc(self.start_state, wx, self.alphabet@[ai as int]);
                        lemma_word_over_push(wx, self.alphabet@, self.alphabet@[ai as int]);
                        assert(word_over(wx.push(self.alphabet@[ai as int]), self.alphabet@)
                            && self.run_from(self.start_state, wx.push(self.alphabet@[ai as int]))
                            == t);
                        assert(self.reaches(t));
                        assert forall|y: u64| #[trigger] stack@.contains(y)
                            implies self.states@.contains(y) && self.reaches(y) by {
                            let i = choose|i: int| 0 <= i < stack@.len() && stack@[i] == y;
                            if i < pre_stack.len() {
                                assert(pre_stack[i] == y);
                                assert(pre_stack.contains(y));
                            } else {
                                assert(y == t);
                            }
                        }
                    }
                    ai = ai + 1;
                }
                proof {
                    assert forall|y: u64| #[trigger] result@.contains(y)
                        implies self.states@.contains(y) && self.reaches(y) by {
                        let i = choose|i: int| 0 <= i < result@.len() && result@[i] == y;
                        if i < pre_result.len() {
                            assert(pre_result[i] == y);
                            assert(pre_result.contains(y));
                        } else {
                            assert(y == x);
                        }
                    }
                    assert forall|y: u64, c: u64|
                        result@.contains(y) && self.alphabet@.contains(c) implies result@.contains(
                        #[trigger] self.trans_at(y, c),
                    ) || stack@.contains(self.trans_at(y, c)) by {
                        if y == x {
                            let q = choose|q: int|
                                0 <= q < self.alphabet@.len() && self.alphabet@[q] == c;
                            assert(result@.contains(self.trans_at(x, self.alphabet@[q]))
                                || stack@.contains(self.trans_at(x, self.alphabet@[q])));
                        }
                    }
                    if !result@.contains(self.start_state) && old_stack.contains(self.start_state) {
                        let i = choose|i: int|
                            0 <= i < old_stack.len() && old_stack[i] == self.start_state;
                        if i < old_stack.len() - 1 {
                            assert(post_pop[i] == self.start_state);
                            assert(post_pop.contains(self.start_state));
                        } else {
                            assert(x == self.start_state);
                        }
                    }
                }
            } else {
                proof {
                    assert forall|y: u64, c: u64|
                        result@.contains(y) && self.alphabet@.contains(c) implies result@.contains(
                        #[trigger] self.trans_at(y, c),
                    ) || stack@.contains(self.trans_at(y, c)) by {
                        let t = self.trans_at(y, c);
                        if old_stack.contains(t) {
                            let i = choose|i: int| 0 <= i < old_stack.len() && old_stack[i] == t;
                            if i < old_stack.len() - 1 {
                                assert(stack@[i] == t);
                                assert(stack@.contains(t));
                            } else {
                                assert(t == x);
                            }
                        }
                    }
                    if !result@.contains(self.start_state) && old_stack.contains(self.start_state) {
                        let i = choose|i: int|
                            0 <= i < old_stack.len() && old_stack[i] == self.start_state;
                        if i < old_stack.len() - 1 {
                            assert(stack@[i] == self.start_state);
                            assert(stack@.contains(self.start_state));
                        } else {
                            assert(x == self.start_state);
                        }
                    }
                }
            }
        }
        proof {
            assert forall|x: u64| #[trigger] self.reaches(x) implies result@.contains(x) by {
                let w = choose|w: Seq<u64>|
                    word_over(w, self.alphabet@) && self.run_from(self.start_state, w) == x;
                self.lemma_closed_covers(result@, self.start_state, w);
            }
        }
        result
    }

    /// Does the automaton accept no word at all over its alphabet?
    pub fn is_empty(&self) -> (r: bool)
        requires
            self.wf(),
        ensures
            r == (forall|w: Seq<u64>|
                word_over(w, self.alphabet@) ==> !(#[trigger] self.accepts(w))),
    {
        let reach = self.reachable_states();
        let mut i: usize = 0;
        while i < reach.len()
            invariant
                forall|j: int| 0 <= j < i ==> !self.accepting@.contains(#[trigger] reach@[j]),
            decreases reach@.len() - i,
        {
            if vec_contains(&self.accepting, reach[i]) {
                proof {
                    assert(reach@.contains(reach@[i as int]));
                    let w = choose|w: Seq<u64>|
                        word_over(w, self.alphabet@) && self.run_from(self.start_state, w)
                            == reach@[i as int];
                    assert(self.accepts(w));
                }
                return false;
            }
            i = i + 1;
        }
        proof {
            assert forall|w: Seq<u64>| word_over(w, self.alphabet@) implies !(
            #[trigger] self.accepts(w)) by {
                let e = self.run_from(self.start_state, w);
                assert(self.reaches(e));
                assert(reach@.contains(e));
                let j = choose|j: int| 0 <= j < reach@.len() && reach@[j] == e;
                assert(!self.accepting@.contains(reach@[j]));
            }
        }
        true
    }

    /// Does the automaton accept every word over its alphabet?
    pub fn is_complete(&self) -> (r: bool)
        requires
            self.wf(),
        ensures
            r == (forall|w: Seq<u64>| word_over(w, self.alphabet@) ==> #[trigger] self.accepts(w)),
    {
        let reach = self.reachable_states();
        let mut i: usize = 0;
        while i < reach.len()
            invariant
                forall|j: int| 0 <= j < i ==> self.accepting@.contains(#[trigger] reach@[j]),
            decreases reach@.len() - i,
        {
            if !vec_contains(&self.accepting, reach[i]) {
                proof {
                    assert(reach@.contains(reach@[i as int]));
                    let w = choose|w: Seq<u64>|
                        word_over(w, self.alphabet@) && self.run_from(self.start_state, w)
                            == reach@[i as int];
                    assert(!self.accepts(w));
                }
                return false;
            }
            i = i + 1;
        }
        proof {
            assert forall|w: Seq<u64>| word_over(w, self.alphabet@) implies #[trigger] self.accepts(
                w,
            ) by {
                let e = self.run_from(self.start_state, w);
                assert(self.reaches(e));
                assert(reach@.contains(e));
                let j = choose|j: int| 0 <= j < reach@.len() && reach@[j] == e;
                assert(self.accepting@.contains(reach@[j]));
            }
        }
        true
    }

    /// The automaton that accepts exactly the words this one rejects:
    /// same states, alphabet and transitions, complemented accepting set.
    pub fn complement(&self) -> (r: Dfa)
        requires
            self.wf(),
        ensures
            r.wf(),
            r.states@ == self.states@,
            r.alphabet@ == self.alphabet@,
            r.start_state == self.start_state,
            r.transitions@ == self.transitions@,
            forall|a: u64|
                #[trigger] r.accepting@.contains(a) <==> (self.states@.contains(a)
                    && !self.accepting@.contains(a)),
            forall|w: Seq<u64>|
                word_over(w, self.alphabet@) ==> (#[trigger] r.accepts(w)) == !self.accepts(w),
    {
        let mut non_accepting: Vec<u64> = Vec::new();
        let mut i: usize = 0;
        while i < self.states.len()
            invariant
                0 <= i <= self.states@.len(),
                non_accepting@.no_duplicates(),
                forall|a: u64|
                    #[trigger] non_accepting@.contains(a) <==> (exists|j: int|
                        0 <= j < i && self.states@[j] == a) && !self.accepting@.contains(a),
            decreases self.states@.len() - i,
        {
            let s = self.states[i];
            if !vec_contains(&self.accepting, s) {
                let ghost pre = non_accepting@;
                proof {
                    if pre.contains(s) {
                        let j = choose|j: int| 0 <= j < i && self.states@[j] == s;
                        assert(self.states@[j] == self.states@[i as int]);
                        assert(false);
                    }
                }
                non_accepting.push(s);
                proof {
                    assert(non_accepting@[pre.len() as int] == s);
                    assert forall|a: u64| #[trigger] non_accepting@.contains(a) implies (exists|
                        j: int,
                    |
                        0 <= j < i + 1 && self.states@[j] == a) && !self.accepting@.contains(a) by {
                        let k = choose|k: int|
                            0 <= k < non_accepting@.len() && non_accepting@[k] == a;
                        if k < pre.len() {
                            assert(pre[k] == a);
                            assert(pre.contains(a));
                        } else {
                            assert(a == s);
                            assert(self.states@[i as int] == a);
                        }
                    }
                    assert forall|a: u64|
                        (exists|j: int| 0 <= j < i + 1 && self.states@[j] == a)
                            && !self.accepting@.contains(a) implies #[trigger] non_accepting@.contains(
                        a,
                    ) by {
                        let j = choose|j: int| 0 <= j < i + 1 && self.states@[j] == a;
                        if j < i {
                            assert(pre.contains(a));
                            let k = choose|k: int| 0 <= k < pre.len() && pre[k] == a;
                            assert(non_accepting@[k] == a);
                        } else {
                            assert(a == s);
                        }
                    }
                }
            }
            i = i + 1;
        }
        let r = Dfa {
            states: crate::table::copy_values(&self.states),
            alphabet: crate::table::copy_values(&self.alphabet),
            start_state: self.start_state,
            transitions: crate::table::copy_dtable(&self.transitions),
            accepting: non_accepting,
        };
        proof {
            assert forall|a: u64| #[trigger] r.accepting@.contains(a) implies self.states@.contains(
                a,
            ) by {
                let j = choose|j: int| 0 <= j < self.states@.len() && self.states@[j] == a;
            }
            assert forall|a: u64|
                self.states@.contains(a) && !self.accepting@.contains(a)
                    implies #[trigger] r.accepting@.contains(a) by {
                let j = choose|j: int| 0 <= j < self.states@.len() && self.states@[j] == a;
                assert(exists|k: int|
                    0 <= k < self.states@.len() && self.states@[k] == a);
            }
            assert forall|s: u64, c: u64|
                #![trigger r.has_trans(s, c)]
                #![trigger r.trans_at(s, c)]
                r.states@.contains(s) && r.alphabet@.contains(c) implies r.has_trans(s, c)
                && r.states@.contains(r.trans_at(s, c)) by {
                assert(self.has_trans(s, c) && self.states@.contains(self.trans_at(s, c)));
                assert(r.has_trans(s, c) == self.has_trans(s, c));
                assert(r.trans_at(s, c) == self.trans_at(s, c));
            }
            assert forall|w: Seq<u64>| word_over(w, self.alphabet@) implies (
            #[trigger] r.accepts(w)) == !self.accepts(w) by {
                r.lemma_run_same_trans(*self, r.start_state, w);
                self.lemma_run_in_states(self.start_state, w);
            }
        }
        r
    }

    /// The one-state automaton over `alphabet` that accepts no word.
    pub fn empty(alphabet: Vec<u64>) -> (r: Dfa)
        requires
            alphabet@.no_duplicates(),
        ensures
            r.wf(),
            r.alphabet@ == alphabet@,
            r.states@ == seq![0u64],
            forall|w: Seq<u64>| word_over(w, r.alphabet@) ==> !(#[trigger] r.accepts(w)),
    {
        let mut transitions: Vec<((u64, u64), u64)> = Vec::new();
        let mut i: usize = 0;
        while i < alphabet.len()
            invariant
                0 <= i <= alphabet@.len(),
                transitions@.len() == i,
                forall|m: int|
                    0 <= m < i ==> #[trigger] transitions@[m] == ((0u64, alphabet@[m]), 0u64),
            decreases alphabet@.len() - i,
        {
            transitions.push(((0u64, alphabet[i]), 0u64));
            i = i + 1;
        }
        let mut states: Vec<u64> = Vec::new();
        states.push(0u64);
        let r = Dfa {
            states,
            alphabet,
            start_state: 0u64,
            transitions: transitions,
            accepting: Vec::new(),
        };
        proof {
            Self::lemma_single_state_table(r);
        }
        r
    }

    /// The one-state automaton over `alphabet` that accepts every word.
    pub fn complete(alphabet: Vec<u64>) -> (r: Dfa)
        requires
            alphabet@.no_duplicates(),
        ensures
            r.wf(),
            r.alphabet@ == alphabet@,
            r.states@ == seq![0u64],
            forall|w: Seq<u64>| word_over(w, r.alphabet@) ==> #[trigger] r.accepts(w),
    {
        let mut transitions: Vec<((u64, u64), u64)> = Vec::new();
        let mut i: usize = 0;
        while i < alphabet.len()
            invariant
                0 <= i <= alphabet@.len(),
                transitions@.len() == i,
                forall|m: int|
                    0 <= m < i ==> #[trigger] transitions@[m] == ((0u64, alphabet@[m]), 0u64),
            decreases alphabet@.len() - i,
        {
            transitions.push(((0u64, alphabet[i]), 0u64));
            i = i + 1;
        }
        let mut states: Vec<u64> = Vec::new();
        states.push(0u64);
        let mut accepting: Vec<u64> = Vec::new();
        accepting.push(0u64);
        let r = Dfa { states, alphabet, start_state: 0u64, transitions, accepting };
        proof {
            Self::lemma_single_state_table(r);
            assert forall|w: Seq<u64>| word_over(w, r.alphabet@) implies #[trigger] r.accepts(
                w,
            ) by {
                r.lemma_run_in_states(r.start_state, w);
                assert(r.states@.contains(r.run_from(r.start_state, w)));
                let j = choose|j: int|
                    0 <= j < r.states@.len() && r.states@[j] == r.run_from(r.start_state, w);
                assert(r.run_from(r.start_state, w) == 0u64);
                assert(r.accepting@[0] == 0u64);
            }
        }
        r
    }

    /// Multiplying indices below their bounds stays below the product of the bounds.
    proof fn lemma_pair_bounds(i: int, j: int, n1: int, n2: int) by (nonlinear_arith)
        requires
            0 <= i < n1,
            0 <= j < n2,
        ensures
            0 <= i * n2 + j < n1 * n2,
    {
    }

    /// Splitting a pair index by division and remainder recovers its parts.
    proof fn lemma_div_parts(k: int, n1: int, n2: int) by (nonlinear_arith)
        requires
            n2 > 0,
            0 <= k < n1 * n2,
        ensures
            0 <= k / n2 < n1,
            0 <= k % n2 < n2,
            k == (k / n2) * n2 + k % n2,
    {
    }

    /// In the product automaton, running from the pair of the `i`-th state of
    /// `first` and the `j`-th state of `second` lands on the pair of the two
    /// component runs.
    proof fn lemma_prod_run(first: Dfa, second: Dfa, p: Dfa, w: Seq<u64>, i: int, j: int)
        requires
            first.wf(),
            second.wf(),
            word_over(w, first.alphabet@),
            second.alphabet@.to_set() == first.alphabet@.to_set(),
            0 <= i < first.states@.len(),
            0 <= j < second.states@.len(),
            forall|ks: u64, c: u64|
                #![trigger dtable_get(p.transitions@, (ks, c))]
                (ks as int) < first.states@.len() * second.states@.len()
                    && first.alphabet@.contains(c) ==> dtable_get(p.transitions@, (ks, c))
                    == prod_target(first, second, ks as int, c),
            first.states@.len() * second.states@.len() <= usize::MAX,
        ensures
            p.run_from(
                (i * second.states@.len() + j) as u64,
                w,
            ) == (first.states@.index_of(first.run_from(first.states@[i], w))
                * second.states@.len() + second.states@.index_of(
                second.run_from(second.states@[j], w),
            )) as u64,
        decreases w.len(),
    {
        let n1 = first.states@.len() as int;
        let n2 = second.states@.len() as int;
        if w.len() == 0 {
            crate::table::lemma_index_of_unique(first.states@, first.states@[i], i);
            crate::table::lemma_index_of_unique(second.states@, second.states@[j], j);
        } else {
            let c = w.first();
            assert(first.alphabet@.contains(c));
            assert(second.alphabet@.to_set().contains(c));
            assert(second.alphabet@.contains(c));
            let k = i * n2 + j;
            Self::lemma_pair_bounds(i, j, n1, n2);
            Self::lemma_div_parts(k, n1, n2);
            assert(k / n2 == i && k % n2 == j) by (nonlinear_arith)
                requires
                    n2 > 0,
                    0 <= i,
                    0 <= j < n2,
                    k == i * n2 + j,
                    k == (k / n2) * n2 + k % n2,
                    0 <= k % n2 < n2,
            ;
            assert(first.states@.contains(first.states@[i]));
            assert(second.states@.contains(second.states@[j]));
            let t1 = first.trans_at(first.states@[i], c);
            let t2 = second.trans_at(second.states@[j], c);
            assert(first.states@.contains(t1));
            assert(second.states@.contains(t2));
            crate::table::lemma_index_of_in(first.states@, t1);
            crate::table::lemma_index_of_in(second.states@, t2);
            let i2 = first.states@.index_of(t1);
            let j2 = second.states@.index_of(t2);
            assert(dtable_get(p.transitions@, ((k as u64), c)) == prod_target(first, second, k, c));
            assert(p.trans_at(k as u64, c) == (i2 * n2 + j2) as u64);
            Self::lemma_pair_bounds(i2, j2, n1, n2);
            lemma_word_over_drop_first(w, first.alphabet@);
            Self::lemma_prod_run(first, second, p, w.drop_first(), i2, j2);
            assert(first.run_from(first.states@[i], w) == first.run_from(
                first.states@[i2],
                w.drop_first(),
            ));
            assert(second.run_from(second.states@[j], w) == second.run_from(
                second.states@[j2],
                w.drop_first(),
            ));
        }
    }

    /// The product automaton: it simulates `first` and `second` in lock step
    /// and accepts a word exactly when `op` holds of the two components'
    /// acceptance of it.
    pub fn product(first: &Dfa, second: &Dfa, op: BoolOp) -> (r: Dfa)
        requires
            first.wf(),
            second.wf(),
            first.alphabet@.to_set() == second.alphabet@.to_set(),
            first.states@.len() * second.states@.len() <= usize::MAX,
        ensures
            r.wf(),
            r.alphabet@ == first.alphabet@,
            r.states@.len() == first.states@.len() * second.states@.len(),
            forall|m: int| 0 <= m < r.states@.len() ==> #[trigger] r.states@[m] == m as u64,
            r.start_state == (first.states@.index_of(first.start_state) * second.states@.len()
                + second.states@.index_of(second.start_state)) as u64,
            forall|ks: u64, c: u64|
                #![trigger r.trans_at(ks, c)]
                #![trigger r.has_trans(ks, c)]
                (ks as int) < r.states@.len() && first.alphabet@.contains(c) ==> r.has_trans(
                    ks,
                    c,
                ) && r.trans_at(ks, c) == prod_target(*first, *second, ks as int, c),
            forall|ks: u64|
                #[trigger] r.accepting@.contains(ks) <==> ((ks as int) < r.states@.len()
                    && op.eval(
                    first.accepting@.contains(
                        first.states@[ks as int / second.states@.len() as int],
                    ),
                    second.accepting@.contains(
                        second.states@[ks as int % second.states@.len() as int],
                    ),
                )),
            forall|w: Seq<u64>|
                word_over(w, first.alphabet@) ==> (#[trigger] r.accepts(w)) == op.eval(
                    first.accepts(w),
                    second.accepts(w),
                ),
    {
        let n1 = first.states.len();
        let n2 = second.states.len();
        let alen = first.alphabet.len();
        proof {
            assert(second.states@.contains(second.start_state));
            let z = choose|z: int|
                0 <= z < second.states@.len() && second.states@[z] == second.start_state;
            assert(second.states@.len() > 0);
            assert(first.states@.contains(first.start_state));
            let z1 = choose|z: int|
                0 <= z < first.states@.len() && first.states@[z] == first.start_state;
            assert(first.states@.len() > 0);
            assert(n1 * n2 <= usize::MAX);
            Self::lemma_pair_bounds(n1 as int - 1, n2 as int - 1, n1 as int, n2 as int);
        }
        let total = n1 * n2;
        let mut states: Vec<u64> = Vec::new();
        let mut k: usize = 0;
        while k < total
            invariant
                0 <= k <= total,
                states@.len() == k,
                forall|m: int| 0 <= m < k ==> #[trigger] states@[m] == m as u64,
            decreases total - k,
        {
            states.push(k as u64);
            k = k + 1;
        }
        let mut transitions: Vec<((u64, u64), u64)> = Vec::new();
        let mut k: usize = 0;
        while k < total
            invariant
                0 <= k <= total,
                dkeys_distinct(transitions@),
                forall|m: int|
                    0 <= m < transitions@.len() ==> ((#[trigger] transitions@[m]).0.0 as int) < k
                        && first.alphabet@.contains(transitions@[m].0.1),
                forall|ks: u64, c: u64|
                    #![trigger dtable_get(transitions@, (ks, c))]
                    #![trigger dtable_has(transitions@, (ks, c))]
                    (ks as int) < k && first.alphabet@.contains(c) ==> dtable_has(
                        transitions@,
                        (ks, c),
                    ) && dtable_get(transitions@, (ks, c)) == prod_target(
                        *first,
                        *second,
                        ks as int,
                        c,
                    ),
            decreases total - k,
        {
            let i = k / n2;
            let j = k % n2;
            proof {
                Self::lemma_div_parts(k as int, n1 as int, n2 as int);
            }
            let s1 = first.states[i];
            let s2 = second.states[j];
            let ghost row_start = transitions@;
            let mut a: usize = 0;
            while a < alen
                invariant
                    0 <= a <= alen,
                    dkeys_distinct(transitions@),
                    forall|m: int|
                        0 <= m < transitions@.len() ==> ((#[trigger] transitions@[m]).0.0 as int)
                            <= k && first.alphabet@.contains(transitions@[m].0.1),
                    forall|m: int|
                        0 <= m < transitions@.len() && (transitions@[m].0.0 as int) == k ==> exists|
                            q: int,
                        | 0 <= q < a && (#[trigger] transitions@[m]).0.1 == first.alphabet@[q],
                    forall|ks: u64, c: u64|
                        #![trigger dtable_get(transitions@, (ks, c))]
                        #![trigger dtable_has(transitions@, (ks, c))]
                        (ks as int) < k && first.alphabet@.contains(c) ==> dtable_has(
                            transitions@,
                            (ks, c),
                        ) && dtable_get(transitions@, (ks, c)) == prod_target(
                            *first,
                            *second,
                            ks as int,
                            c,
                        ),
                    forall|q: int|
                        0 <= q < a ==> dtable_has(
                            transitions@,
                            ((k as u64), #[trigger] first.alphabet@[q]),
                        ) && dtable_get(transitions@, ((k as u64), first.alphabet@[q]))
                            == prod_target(*first, *second, k as int, first.alphabet@[q]),
                decreases alen - a,
            {
                let c = first.alphabet[a];
                proof {
                    assert(first.alphabet@.contains(c));
                    assert(second.alphabet@.to_set().contains(c));
                    assert(second.alphabet@.contains(c));
                }
                let t1 = first.transition(s1, c);
                let t2 = second.transition(s2, c);
                let i2 = position_of(&first.states, t1);
                let j2 = position_of(&second.states, t2);
                proof {
                    Self::lemma_pair_bounds(i2 as int, j2 as int, n1 as int, n2 as int);
                }
                let tid = i2 * n2 + j2;
                let ghost pre = transitions@;
                proof {
                    if dtable_has(pre, ((k as u64), c)) {
                        let m = choose|m: int| 0 <= m < pre.len() && (#[trigger] pre[m]).0 == (
                        (k as u64),
                        c,
                        );
                        let q = choose|q: int| 0 <= q < a && pre[m].0.1 == first.alphabet@[q];
                        assert(first.alphabet@[q] == first.alphabet@[a as int]);
                        assert(false);
                    }
                    lemma_dtable_push(pre, (((k as u64), c), tid as u64));
                }
                transitions.push((((k as u64), c), tid as u64));
                proof {
                    assert(transitions@ == pre.push((((k as u64), c), tid as u64)));
                    assert(prod_target(*first, *second, k as int, c) == tid as u64) by {
                        assert(first.trans_at(first.states@[k as int / n2 as int], c) == t1);
                        crate::table::lemma_index_of_unique(first.states@, t1, i2 as int);
                        crate::table::lemma_index_of_unique(second.states@, t2, j2 as int);
                    }
                    assert forall|m: int|
                        0 <= m < transitions@.len() && (transitions@[m].0.0 as int)
                            == k implies exists|q: int|
                        0 <= q < a + 1 && (#[trigger] transitions@[m]).0.1
                            == first.alphabet@[q] by {
                        if m < pre.len() {
                            assert(pre[m].0.0 as int == k);
                            let q = choose|q: int| 0 <= q < a && pre[m].0.1 == first.alphabet@[q];
                            assert(transitions@[m].0.1 == first.alphabet@[q]);
                        } else {
                            assert(transitions@[m].0.1 == first.alphabet@[a as int]);
                        }
                    }
                }
                a = a + 1;
            }
            proof {
                assert forall|ks: u64, c: u64|
                    #![trigger dtable_get(transitions@, (ks, c))]
                    #![trigger dtable_has(transitions@, (ks, c))]
                    (ks as int) < k + 1 && first.alphabet@.contains(c) implies dtable_has(
                    transitions@,
                    (ks, c),
                ) && dtable_get(transitions@, (ks, c)) == prod_target(
                    *first,
                    *second,
                    ks as int,
                    c,
                ) by {
                    if (ks as int) == k {
                        let q = choose|q: int|
                            0 <= q < first.alphabet@.len() && first.alphabet@[q] == c;
                        assert(dtable_has(transitions@, ((k as u64), first.alphabet@[q])));
                    }
                }
            }
            k = k + 1;
        }
        let mut accepting: Vec<u64> = Vec::new();
        let mut k: usize = 0;
        while k < total
            invariant
                0 <= k <= total,
                accepting@.no_duplicates(),
                forall|m: int| 0 <= m < accepting@.len() ==> ((#[trigger] accepting@[m]) as int) < k,
                forall|ks: u64|
                    (ks as int) < k ==> ((#[trigger] accepting@.contains(ks)) <==> op.eval(
                        first.accepting@.contains(first.states@[ks as int / n2 as int]),
                        second.accepting@.contains(second.states@[ks as int % n2 as int]),
                    )),
            decreases total - k,
        {
            let i = k / n2;
            let j = k % n2;
            proof {
                Self::lemma_div_parts(k as int, n1 as int, n2 as int);
            }
            let acc1 = vec_contains(&first.accepting, first.states[i]);
            let acc2 = vec_contains(&second.accepting, second.states[j]);
            let ghost pre = accepting@;
            if op.apply(acc1, acc2) {
                accepting.push(k as u64);
            }
            proof {
                assert forall|ks: u64| (ks as int) < k + 1 implies (
                (#[trigger] accepting@.contains(ks)) <==> op.eval(
                    first.accepting@.contains(first.states@[ks as int / n2 as int]),
                    second.accepting@.contains(second.states@[ks as int % n2 as int]),
                )) by {
                    if (ks as int) < k {
                        if pre.contains(ks) {
                            let m = choose|m: int| 0 <= m < pre.len() && pre[m] == ks;
                            assert(accepting@[m] == ks);
                            assert(accepting@.contains(ks));
                        }
                        if accepting@.contains(ks) {
                            let m = choose|m: int|
                                0 <= m < accepting@.len() && accepting@[m] == ks;
                            if m < pre.len() {
                                assert(pre.contains(ks));
                            } else {
                                assert(ks as int == k);
                                assert(false);
                            }
                        }
                    } else {
                        assert(ks as int == k);
                        if op.eval(
                            first.accepting@.contains(first.states@[ks as int / n2 as int]),
                            second.accepting@.contains(second.states@[ks as int % n2 as int]),
                        ) {
                            assert(accepting@[pre.len() as int] == ks);
                            assert(accepting@.contains(ks));
                        } else {
                            if accepting@.contains(ks) {
                                let m = choose|m: int|
                                    0 <= m < accepting@.len() && accepting@[m] == ks;
                                if m < pre.len() {
                                    assert((pre[m] as int) < k);
                                    assert(false);
                                }
                            }
                        }
                    }
                }
            }
            k = k + 1;
        }
        let i0 = position_of(&first.states, first.start_state);
        let j0 = position_of(&second.states, second.start_state);
        proof {
            Self::lemma_pair_bounds(i0 as int, j0 as int, n1 as int, n2 as int);
        }
        let start_state = i0 * n2 + j0;
        let r = Dfa {
            states,
            alphabet: crate::table::copy_values(&first.alphabet),
            start_state: start_state as u64,
            transitions,
            accepting,
        };
        proof {
            Self::lemma_product_correct(*first, *second, r, op, i0 as int, j0 as int);
            crate::table::lemma_index_of_unique(first.states@, first.start_state, i0 as int);
            crate::table::lemma_index_of_unique(second.states@, second.start_state, j0 as int);
            assert forall|ks: u64| #[trigger] r.accepting@.contains(ks) implies ((ks as int)
                < r.states@.len() && op.eval(
                first.accepting@.contains(first.states@[ks as int / second.states@.len() as int]),
                second.accepting@.contains(
                    second.states@[ks as int % second.states@.len() as int],
                ),
            )) by {
                let m = choose|m: int| 0 <= m < r.accepting@.len() && r.accepting@[m] == ks;
                assert((r.accepting@[m] as int) < total);
            }
        }
        r
    }

    /// The assembled product automaton is well formed and accepts by `op`
    /// over the two components' acceptance.
    proof fn lemma_product_correct(first: Dfa, second: Dfa, r: Dfa, op: BoolOp, i0: int, j0: int)
        requires
            first.wf(),
            second.wf(),
            first.alphabet@.to_set() == second.alphabet@.to_set(),
            first.states@.len() * second.states@.len() <= usize::MAX,
            r.alphabet@ == first.alphabet@,
            r.states@.len() == first.states@.len() * second.states@.len(),
            forall|m: int| 0 <= m < r.states@.len() ==> #[trigger] r.states@[m] == m as u64,
            dkeys_distinct(r.transitions@),
            forall|m: int|
                0 <= m < r.transitions@.len() ==> ((#[trigger] r.transitions@[m]).0.0 as int)
                    < first.states@.len() * second.states@.len() && first.alphabet@.contains(
                    r.transitions@[m].0.1,
                ),
            forall|ks: u64, c: u64|
                #![trigger dtable_get(r.transitions@, (ks, c))]
                #![trigger dtable_has(r.transitions@, (ks, c))]
                (ks as int) < first.states@.len() * second.states@.len()
                    && first.alphabet@.contains(c) ==> dtable_has(r.transitions@, (ks, c))
                    && dtable_get(r.transitions@, (ks, c)) == prod_target(
                    first,
                    second,
                    ks as int,
                    c,
                ),
            r.accepting@.no_duplicates(),
            forall|m: int|
                0 <= m < r.accepting@.len() ==> ((#[trigger] r.accepting@[m]) as int)
                    < first.states@.len() * second.states@.len(),
            forall|ks: u64|
                (ks as int) < first.states@.len() * second.states@.len() ==> ((
                #[trigger] r.accepting@.contains(ks)) <==> op.eval(
                    first.accepting@.contains(
                        first.states@[ks as int / second.states@.len() as int],
                    ),
                    second.accepting@.contains(
                        second.states@[ks as int % second.states@.len() as int],
                    ),
                )),
            0 <= i0 < first.states@.len(),
            0 <= j0 < second.states@.len(),
            first.states@[i0] == first.start_state,
            second.states@[j0] == second.start_state,
            r.start_state == (i0 * second.states@.len() + j0) as u64,
        ensures
            r.wf(),
            forall|w: Seq<u64>|
                word_over(w, first.alphabet@) ==> (#[trigger] r.accepts(w)) == op.eval(
                    first.accepts(w),
                    second.accepts(w),
                ),
    {
        let n1 = first.states@.len() as int;
        let n2 = second.states@.len() as int;
        let total = n1 * n2;
        // well-formedness
        assert forall|m1: int, m2: int| 0 <= m1 < m2 < r.states@.len() implies r.states@[m1]
            != r.states@[m2] by {
            assert(r.states@[m1] == m1 as u64 && r.states@[m2] == m2 as u64);
        }
        assert(r.states@.no_duplicates());
        Self::lemma_pair_bounds(i0, j0, n1, n2);
        assert(r.states@[i0 * n2 + j0] == (i0 * n2 + j0) as u64);
        assert(r.states@.contains(r.start_state));
        assert forall|a: u64| #[trigger] r.accepting@.contains(a) implies r.states@.contains(a) by {
            let m = choose|m: int| 0 <= m < r.accepting@.len() && r.accepting@[m] == a;
            assert((a as int) < total);
            assert(r.states@[a as int] == a);
        }
        assert forall|s: u64, c: u64|
            #![trigger r.has_trans(s, c)]
            #![trigger r.trans_at(s, c)]
            r.states@.contains(s) && r.alphabet@.contains(c) implies r.has_trans(s, c)
            && r.states@.contains(r.trans_at(s, c)) by {
            let m = choose|m: int| 0 <= m < r.states@.len() && r.states@[m] == s;
            assert(s == m as u64);
            assert((s as int) < total);
            assert(dtable_has(r.transitions@, (s, c)) && dtable_get(r.transitions@, (s, c))
                == prod_target(first, second, s as int, c));
            Self::lemma_div_parts(s as int, n1, n2);
            let i = s as int / n2;
            let j = s as int % n2;
            assert(first.states@.contains(first.states@[i]));
            assert(second.states@.contains(second.states@[j]));
            assert(second.alphabet@.to_set().contains(c));
            assert(second.alphabet@.contains(c));
            let t1 = first.trans_at(first.states@[i], c);
            let t2 = second.trans_at(second.states@[j], c);
            assert(first.states@.contains(t1));
            assert(second.states@.contains(t2));
            crate::table::lemma_index_of_in(first.states@, t1);
            crate::table::lemma_index_of_in(second.states@, t2);
            let i2 = first.states@.index_of(t1);
            let j2 = second.states@.index_of(t2);
            Self::lemma_pair_bounds(i2, j2, n1, n2);
            assert(r.trans_at(s, c) == (i2 * n2 + j2) as u64);
            assert(r.states@[i2 * n2 + j2] == (i2 * n2 + j2) as u64);
        }
        assert forall|m: int| 0 <= m < r.transitions@.len() implies r.states@.contains(
            (#[trigger] r.transitions@[m]).0.0,
        ) && r.alphabet@.contains(r.transitions@[m].0.1) by {
            let s = r.transitions@[m].0.0;
            assert((s as int) < total);
            assert(r.states@[s as int] == s);
        }
        assert(r.wf());
        // language
        assert forall|w: Seq<u64>| word_over(w, first.alphabet@) implies (#[trigger] r.accepts(w))
            == op.eval(first.accepts(w), second.accepts(w)) by {
            Self::lemma_prod_run(first, second, r, w, i0, j0);
            first.lemma_run_in_states(first.start_state, w);
            assert(word_over(w, second.alphabet@)) by {
                assert forall|z: int| 0 <= z < w.len() implies second.alphabet@.contains(
                    #[trigger] w[z],
                ) by {
                    assert(first.alphabet@.contains(w[z]));
                    assert(second.alphabet@.to_set().contains(w[z]));
                }
            }
            second.lemma_run_in_states(second.start_state, w);
            let e1 = first.run_from(first.start_state, w);
            let e2 = second.run_from(second.start_state, w);
            crate::table::lemma_index_of_in(first.states@, e1);
            crate::table::lemma_index_of_in(second.states@, e2);
            let i2 = first.states@.index_of(e1);
            let j2 = second.states@.index_of(e2);
            Self::lemma_pair_bounds(i2, j2, n1, n2);
            let e = (i2 * n2 + j2) as u64;
            assert(r.run_from(r.start_state, w) == e);
            assert((e as int) == i2 * n2 + j2);
            assert(e as int / n2 == i2 && e as int % n2 == j2) by (nonlinear_arith)
                requires
                    n2 > 0,
                    0 <= i2,
                    0 <= j2 < n2,
                    e as int == i2 * n2 + j2,
            ;
            assert(r.accepting@.contains(e) <==> op.eval(
                first.accepting@.contains(first.states@[i2]),
                second.accepting@.contains(second.states@[j2]),
            ));
        }
    }

    /// The product that accepts what at least one operand accepts.
    pub fn union(first: &Dfa, second: &Dfa) -> (r: Dfa)
        requires
            first.wf(),
            second.wf(),
            first.alphabet@.to_set() == second.alphabet@.to_set(),
            first.states@.len() * second.states@.len() <= usize::MAX,
        ensures
            r.wf(),
            r.alphabet@ == first.alphabet@,
            forall|w: Seq<u64>|
                word_over(w, first.alphabet@) ==> (#[trigger] r.accepts(w)) == (first.accepts(w)
                    || second.accepts(w)),
    {
        Self::product(first, second, BoolOp::Or)
    }

    /// The product that accepts what both operands accept.
    pub fn intersection(first: &Dfa, second: &Dfa) -> (r: Dfa)
        requires
            first.wf(),
            second.wf(),
            first.alphabet@.to_set() == second.alphabet@.to_set(),
            first.states@.len() * second.states@.len() <= usize::MAX,
        ensures
            r.wf(),
            r.alphabet@ == first.alphabet@,
            forall|w: Seq<u64>|
                word_over(w, first.alphabet@) ==> (#[trigger] r.accepts(w)) == (first.accepts(w)
                    && second.accepts(w)),
    {
        Self::product(first, second, BoolOp::And)
    }

    /// The product that accepts what the first operand accepts and the second rejects.
    pub fn difference(first: &Dfa, second: &Dfa) -> (r: Dfa)
        requires
            first.wf(),
            second.wf(),
            first.alphabet@.to_set() == second.alphabet@.to_set(),
            first.states@.len() * second.states@.len() <= usize::MAX,
        ensures
            r.wf(),
            r.alphabet@ == first.alphabet@,
            forall|w: Seq<u64>|
                word_over(w, first.alphabet@) ==> (#[trigger] r.accepts(w)) == (first.accepts(w)
                    && !second.accepts(w)),
    {
        Self::product(first, second, BoolOp::AndNot)
    }

    /// The product that accepts what exactly one operand accepts.
    pub fn symmetric_difference(first: &Dfa, second: &Dfa) -> (r: Dfa)
        requires
            first.wf(),
            second.wf(),
            first.alphabet@.to_set() == second.alphabet@.to_set(),
            first.states@.len() * second.states@.len() <= usize::MAX,
        ensures
            r.wf(),
            r.alphabet@ == first.alphabet@,
            forall|w: Seq<u64>|
                word_over(w, first.alphabet@) ==> (#[trigger] r.accepts(w)) == (first.accepts(w)
                    != second.accepts(w)),
    {
        Self::product(first, second, BoolOp::Xor)
    }

    /// Do the two automata accept exactly the same words over the shared alphabet?
    pub fn equivalent(&self, other: &Dfa) -> (r: bool)
        requires
            self.wf(),
            other.wf(),
            self.alphabet@.to_set() == other.alphabet@.to_set(),
            self.states@.len() * other.states@.len() <= usize::MAX,
        ensures
            r == same_language(*self, *other, self.alphabet@),
    {
        let sd = Self::symmetric_difference(self, other);
        let e = sd.is_empty();
        proof {
            if e {
                assert forall|w: Seq<u64>| word_over(w, self.alphabet@) implies (
                #[trigger] self.accepts(w)) == other.accepts(w) by {
                    assert(!sd.accepts(w));
                }
            } else {
                let w = choose|w: Seq<u64>|
                    !(word_over(w, sd.alphabet@) ==> !(#[trigger] sd.accepts(w)));
                assert(word_over(w, self.alphabet@) && sd.accepts(w));
                assert(self.accepts(w) != other.accepts(w));
            }
        }
        e
    }

    /// A table of the shape built by `empty` and `complete` is well formed.
    proof fn lemma_single_state_table(r: Dfa)
        requires
            r.alphabet@.no_duplicates(),
            r.states@ == seq![0u64],
            r.start_state == 0u64,
            r.transitions@.len() == r.alphabet@.len(),
            forall|m: int|
                0 <= m < r.transitions@.len() ==> #[trigger] r.transitions@[m] == (
                (0u64, r.alphabet@[m]),
                0u64,
            ),
            r.accepting@.no_duplicates(),
            forall|a: u64| #[trigger] r.accepting@.contains(a) ==> a == 0u64,
        ensures
            r.wf(),
    {
        assert(r.states@[0] == 0u64);
        assert(r.states@.contains(0u64));
        assert forall|i: int, j: int| 0 <= i < j < r.transitions@.len() implies (
        #[trigger] r.transitions@[i]).0 != (#[trigger] r.transitions@[j]).0 by {
            assert(r.alphabet@[i] != r.alphabet@[j]);
        }
        assert forall|s: u64, c: u64|
            #![trigger r.has_trans(s, c)]
            #![trigger r.trans_at(s, c)]
            r.states@.contains(s) && r.alphabet@.contains(c) implies r.has_trans(s, c)
            && r.states@.contains(r.trans_at(s, c)) by {
            let m = choose|m: int| 0 <= m < r.alphabet@.len() && r.alphabet@[m] == c;
            assert(r.transitions@[m].0 == (s, c));
            lemma_dtable_get(r.transitions@, (s, c), m);
        }
        assert forall|i: int| 0 <= i < r.transitions@.len() implies r.states@.contains(
            (#[trigger] r.transitions@[i]).0.0,
        ) && r.alphabet@.contains(r.transitions@[i].0.1) by {
            assert(r.transitions@[i].0.1 == r.alphabet@[i]);
            assert(r.alphabet@.contains(r.alphabet@[i]));
        }
    }
    /// The set of states some word over the alphabet leads to.
    pub open spec fn reach_set(self) -> Set<u64> {
        Set::new(|x: u64| self.reaches(x))
    }

    /// The automaton restricted to its reachable states, with those states
    /// renumbered densely as `0, 1, .., n - 1` where `n` is the number of
    /// reachable states; it accepts the same words as the original.
    pub fn relabel_states(&self) -> (r: Dfa)
        requires
            self.wf(),
        ensures
            r.wf(),
            r.alphabet@ == self.alphabet@,
            forall|m: int| 0 <= m < r.states@.len() ==> #[trigger] r.states@[m] == m as u64,
            r.states@.len() == self.reach_set().len(),
            exists|rs: Seq<u64>| #[trigger] dfa_relabel_rel(*self, r, rs),
            same_language(r, *self, self.alphabet@),
    {
        let reach = self.reachable_states();
        let ghost rs = reach@;
        let n = reach.len();
        let alen = self.alphabet.len();
        proof {
            rs.unique_seq_to_set();
            assert(rs.to_set() =~= self.reach_set());
        }
        let mut states: Vec<u64> = Vec::new();
        let mut k: usize = 0;
        while k < n
            invariant
                0 <= k <= n,
                states@.len() == k,
                forall|m: int| 0 <= m < k ==> #[trigger] states@[m] == m as u64,
            decreases n - k,
        {
            states.push(k as u64);
            k = k + 1;
        }
        let mut transitions: Vec<((u64, u64), u64)> = Vec::new();
        let mut k: usize = 0;
        while k < n
            invariant
                0 <= k <= n,
                dkeys_distinct(transitions@),
                forall|m: int|
                    0 <= m < transitions@.len() ==> ((#[trigger] transitions@[m]).0.0 as int) < k
                        && self.alphabet@.contains(transitions@[m].0.1)
                        && ((transitions@[m].1 as int) < n),
                forall|ks: u64, c: u64|
                    #![trigger dtable_get(transitions@, (ks, c))]
                    #![trigger dtable_has(transitions@, (ks, c))]
                    (ks as int) < k && self.alphabet@.contains(c) ==> dtable_has(
                        transitions@,
                        (ks, c),
                    ) && dtable_get(transitions@, (ks, c)) == rs.index_of(
                        self.trans_at(rs[ks as int], c),
                    ) as u64,
            decreases n - k,
        {
            let s = reach[k];
            let mut a: usize = 0;
            while a < alen
                invariant
                    0 <= a <= alen,
                    dkeys_distinct(transitions@),
                    forall|m: int|
                        0 <= m < transitions@.len() ==> ((#[trigger] transitions@[m]).0.0 as int)
                            <= k && self.alphabet@.contains(transitions@[m].0.1)
                            && ((transitions@[m].1 as int) < n),
                    forall|m: int|
                        0 <= m < transitions@.len() && (transitions@[m].0.0 as int) == k ==> exists|
                            q: int,
                        | 0 <= q < a && (#[trigger] transitions@[m]).0.1 == self.alphabet@[q],
                    forall|ks: u64, c: u64|
                        #![trigger dtable_get(transitions@, (ks, c))]
                        #![trigger dtable_has(transitions@, (ks, c))]
                        (ks as int) < k && self.alphabet@.contains(c) ==> dtable_has(
                            transitions@,
                            (ks, c),
                        ) && dtable_get(transitions@, (ks, c)) == rs.index_of(
                            self.trans_at(rs[ks as int], c),
                        ) as u64,
                    forall|q: int|
                        0 <= q < a ==> dtable_has(
                            transitions@,
                            ((k as u64), #[trigger] self.alphabet@[q]),
                        ) && dtable_get(transitions@, ((k as u64), self.alphabet@[q]))
                            == rs.index_of(self.trans_at(rs[k as int], self.alphabet@[q])) as u64,
                decreases alen - a,
            {
                let c = self.alphabet[a];
                proof {
                    assert(rs.contains(rs[k as int]));
                    assert(self.alphabet@.contains(c));
                }
                let t = self.transition(s, c);
                proof {
                    let wx = choose|wx: Seq<u64>|
                        word_over(wx, self.alphabet@) && self.run_from(self.start_state, wx)
                            == rs[k as int];
                    self.lemma_run_snoc(self.start_state, wx, c);
                    lemma_word_over_push(wx, self.alphabet@, c);
                    assert(word_over(wx.push(c), self.alphabet@) && self.run_from(
                        self.start_state,
                        wx.push(c),
                    ) == t);
                    assert(self.reaches(t));
                    assert(rs.contains(t));
                }
                let kt = position_of(&reach, t);
                let ghost pre = transitions@;
                proof {
                    if dtable_has(pre, ((k as u64), c)) {
                        let m = choose|m: int| 0 <= m < pre.len() && (#[trigger] pre[m]).0 == (
                        (k as u64),
                        c,
                        );
                        let q = choose|q: int| 0 <= q < a && pre[m].0.1 == self.alphabet@[q];
                        assert(self.alphabet@[q] == self.alphabet@[a as int]);
                        assert(false);
                    }
                    lemma_dtable_push(pre, (((k as u64), c), kt as u64));
                }
                transitions.push((((k as u64), c), kt as u64));
                proof {
                    assert forall|m: int|
                        0 <= m < transitions@.len() && (transitions@[m].0.0 as int)
                            == k implies exists|q: int|
                        0 <= q < a + 1 && (#[trigger] transitions@[m]).0.1
                            == self.alphabet@[q] by {
                        if m < pre.len() {
                            assert(pre[m].0.0 as int == k);
                            let q = choose|q: int| 0 <= q < a && pre[m].0.1 == self.alphabet@[q];
                            assert(transitions@[m].0.1 == self.alphabet@[q]);
                        } else {
                            assert(transitions@[m].0.1 == self.alphabet@[a as int]);
                        }
                    }
                }
                a = a + 1;
            }
            proof {
                assert forall|ks: u64, c: u64|
                    #![trigger dtable_get(transitions@, (ks, c))]
                    #![trigger dtable_has(transitions@, (ks, c))]
                    (ks as int) < k + 1 && self.alphabet@.contains(c) implies dtable_has(
                    transitions@,
                    (ks, c),
                ) && dtable_get(transitions@, (ks, c)) == rs.index_of(
                    self.trans_at(rs[ks as int], c),
                ) as u64 by {
                    if (ks as int) == k {
                        let q = choose|q: int|
                            0 <= q < self.alphabet@.len() && self.alphabet@[q] == c;
                        assert(dtable_has(transitions@, ((k as u64), self.alphabet@[q])));
                    }
                }
            }
            k = k + 1;
        }
        let mut accepting: Vec<u64> = Vec::new();
        let mut k: usize = 0;
        while k < n
            invariant
                0 <= k <= n,
                accepting@.no_duplicates(),
                forall|m: int| 0 <= m < accepting@.len() ==> ((#[trigger] accepting@[m]) as int) < k,
                forall|ks: u64|
                    (ks as int) < k ==> ((#[trigger] accepting@.contains(ks))
                        <==> self.accepting@.contains(rs[ks as int])),
            decreases n - k,
        {
            let ghost pre = accepting@;
            let isacc = vec_contains(&self.accepting, reach[k]);
            if isacc {
                accepting.push(k as u64);
            }
            proof {
                assert forall|ks: u64| (ks as int) < k + 1 implies (
                (#[trigger] accepting@.contains(ks)) <==> self.accepting@.contains(
                    rs[ks as int],
                )) by {
                    if (ks as int) < k {
                        if pre.contains(ks) {
                            let m = choose|m: int| 0 <= m < pre.len() && pre[m] == ks;
                            assert(accepting@[m] == ks);
                        }
                        if accepting@.contains(ks) {
                            let m = choose|m: int|
                                0 <= m < accepting@.len() && accepting@[m] == ks;
                            if m < pre.len() {
                                assert(pre.contains(ks));
                            } else {
                                assert(false);
                            }
                        }
                    } else {
                        if isacc {
                            assert(accepting@[pre.len() as int] == ks);
                        } else {
                            if accepting@.contains(ks) {
                                let m = choose|m: int|
                                    0 <= m < accepting@.len() && accepting@[m] == ks;
                                if m < pre.len() {
                                    assert((pre[m] as int) < k);
                                    assert(false);
                                }
                            }
                        }
                    }
                }
            }
            k = k + 1;
        }
        proof {
            assert(self.reaches(self.start_state)) by {
                assert(word_over(Seq::<u64>::empty(), self.alphabet@));
                assert(self.run_from(self.start_state, Seq::<u64>::empty()) == self.start_state);
            }
            assert(rs.contains(self.start_state));
        }
        let k0 = position_of(&reach, self.start_state);
        let r = Dfa {
            states,
            alphabet: crate::table::copy_values(&self.alphabet),
            start_state: k0 as u64,
            transitions,
            accepting,
        };
        proof {
            self.lemma_relabel_correct(r, rs, k0 as int);
            assert forall|ks: u64| #[trigger] r.accepting@.contains(ks) implies ((ks as int)
                < rs.len() && self.accepting@.contains(rs[ks as int])) by {
                let m = choose|m: int| 0 <= m < r.accepting@.len() && r.accepting@[m] == ks;
                assert((r.accepting@[m] as int) < n);
            }
            assert(dfa_relabel_rel(*self, r, rs));
        }
        r
    }

    /// In the relabelled automaton, running from position `k` lands on the
    /// position of the original run's end state.
    proof fn lemma_relabel_run(self, r: Dfa, rs: Seq<u64>, k: int, w: Seq<u64>)
        requires
            self.wf(),
            word_over(w, self.alphabet@),
            rs.no_duplicates(),
            forall|x: u64| #[trigger] rs.contains(x) ==> self.states@.contains(x),
            forall|x: u64| #[trigger] rs.contains(x) <==> self.reaches(x),
            0 <= k < rs.len(),
            forall|ks: u64, c: u64|
                #![trigger dtable_get(r.transitions@, (ks, c))]
                #![trigger dtable_has(r.transitions@, (ks, c))]
                (ks as int) < rs.len() && self.alphabet@.contains(c) ==> dtable_has(
                    r.transitions@,
                    (ks, c),
                ) && dtable_get(r.transitions@, (ks, c)) == rs.index_of(
                    self.trans_at(rs[ks as int], c),
                ) as u64,
            rs.len() <= usize::MAX,
        ensures
            rs.contains(self.run_from(rs[k], w)),
            r.run_from(k as u64, w) == rs.index_of(self.run_from(rs[k], w)) as u64,
        decreases w.len(),
    {
        if w.len() == 0 {
            assert(rs.contains(rs[k]));
            crate::table::lemma_index_of_unique(rs, rs[k], k);
        } else {
            let c = w.first();
            assert(self.alphabet@.contains(w[0]));
            assert(rs.contains(rs[k]));
            let t = self.trans_at(rs[k], c);
            assert(rs.contains(t)) by {
                let wx = choose|wx: Seq<u64>|
                    word_over(wx, self.alphabet@) && self.run_from(self.start_state, wx) == rs[k];
                self.lemma_run_snoc(self.start_state, wx, c);
                lemma_word_over_push(wx, self.alphabet@, c);
                assert(word_over(wx.push(c), self.alphabet@) && self.run_from(
                    self.start_state,
                    wx.push(c),
                ) == t);
                assert(self.reaches(t));
            }
            crate::table::lemma_index_of_in(rs, t);
            let kt = rs.index_of(t);
            assert(dtable_get(r.transitions@, ((k as u64), c)) == kt as u64);
            assert(r.trans_at(k as u64, c) == kt as u64);
            lemma_word_over_drop_first(w, self.alphabet@);
            self.lemma_relabel_run(r, rs, kt, w.drop_first());
        }
    }

    /// The assembled relabelled automaton is well formed and language-equivalent.
    proof fn lemma_relabel_correct(self, r: Dfa, rs: Seq<u64>, k0: int)
        requires
            self.wf(),
            rs.no_duplicates(),
            forall|x: u64| #[trigger] rs.contains(x) ==> self.states@.contains(x),
            forall|x: u64| #[trigger] rs.contains(x) <==> self.reaches(x),
            rs.len() <= usize::MAX,
            r.alphabet@ == self.alphabet@,
            r.states@.len() == rs.len(),
            forall|m: int| 0 <= m < r.states@.len() ==> #[trigger] r.states@[m] == m as u64,
            dkeys_distinct(r.transitions@),
            forall|m: int|
                0 <= m < r.transitions@.len() ==> ((#[trigger] r.transitions@[m]).0.0 as int)
                    < rs.len() && self.alphabet@.contains(r.transitions@[m].0.1) && ((
                r.transitions@[m].1 as int) < rs.len()),
            forall|ks: u64, c: u64|
                #![trigger dtable_get(r.transitions@, (ks, c))]
                #![trigger dtable_has(r.transitions@, (ks, c))]
                (ks as int) < rs.len() && self.alphabet@.contains(c) ==> dtable_has(
                    r.transitions@,
                    (ks, c),
                ) && dtable_get(r.transitions@, (ks, c)) == rs.index_of(
                    self.trans_at(rs[ks as int], c),
                ) as u64,
            r.accepting@.no_duplicates(),
            forall|m: int|
                0 <= m < r.accepting@.len() ==> ((#[trigger] r.accepting@[m]) as int) < rs.len(),
            forall|ks: u64|
                (ks as int) < rs.len() ==> ((#[trigger] r.accepting@.contains(ks))
                    <==> self.accepting@.contains(rs[ks as int])),
            0 <= k0 < rs.len(),
            rs[k0] == self.start_state,
            r.start_state == k0 as u64,
        ensures
            r.wf(),
            same_language(r, self, self.alphabet@),
    {
        assert forall|m1: int, m2: int| 0 <= m1 < m2 < r.states@.len() implies r.states@[m1]
            != r.states@[m2] by {
            assert(r.states@[m1] == m1 as u64 && r.states@[m2] == m2 as u64);
        }
        assert(r.states@.no_duplicates());
        assert(r.states@[k0] == k0 as u64);
        assert(r.states@.contains(r.start_state));
        assert forall|a: u64| #[trigger] r.accepting@.contains(a) implies r.states@.contains(a) by {
            let m = choose|m: int| 0 <= m < r.accepting@.len() && r.accepting@[m] == a;
            assert(r.states@[a as int] == a);
        }
        assert forall|s: u64, c: u64|
            #![trigger r.has_trans(s, c)]
            #![trigger r.trans_at(s, c)]
            r.states@.contains(s) && r.alphabet@.contains(c) implies r.has_trans(s, c)
            && r.states@.contains(r.trans_at(s, c)) by {
            let m = choose|m: int| 0 <= m < r.states@.len() && r.states@[m] == s;
            assert(s == m as u64);
            assert(dtable_has(r.transitions@, (s, c)));
            assert(rs.contains(rs[m]));
            let t = self.trans_at(rs[m], c);
            assert(rs.contains(t)) by {
                let wx = choose|wx: Seq<u64>|
                    word_over(wx, self.alphabet@) && self.run_from(self.start_state, wx) == rs[m];
                self.lemma_run_snoc(self.start_state, wx, c);
                lemma_word_over_push(wx, self.alphabet@, c);
                assert(word_over(wx.push(c), self.alphabet@) && self.run_from(
                    self.start_state,
                    wx.push(c),
                ) == t);
                assert(self.reaches(t));
            }
            crate::table::lemma_index_of_in(rs, t);
            assert(r.trans_at(s, c) == rs.index_of(t) as u64);
            assert(r.states@[rs.index_of(t)] == rs.index_of(t) as u64);
        }
        assert forall|m: int| 0 <= m < r.transitions@.len() implies r.states@.contains(
            (#[trigger] r.transitions@[m]).0.0,
        ) && r.alphabet@.contains(r.transitions@[m].0.1) by {
            let s = r.transitions@[m].0.0;
            assert(r.states@[s as int] == s);
        }
        assert(r.wf());
        assert forall|w: Seq<u64>| word_over(w, self.alphabet@) implies (#[trigger] r.accepts(w))
            == self.accepts(w) by {
            self.lemma_relabel_run(r, rs, k0, w);
            let e = self.run_from(self.start_state, w);
            crate::table::lemma_index_of_in(rs, e);
            assert(r.run_from(r.start_state, w) == rs.index_of(e) as u64);
            assert(r.accepting@.contains(rs.index_of(e) as u64) <==> self.accepting@.contains(
                rs[rs.index_of(e)],
            ));
        }
    }
}

/// Language equivalence of automata over a fixed alphabet is reflexive.
pub proof fn lemma_same_language_reflexive(a: Dfa, alpha: Seq<u64>)
    ensures
        same_language(a, a, alpha),
{
}

/// Language equivalence of automata over a fixed alphabet is symmetric.
pub proof fn lemma_same_language_symmetric(a: Dfa, b: Dfa, alpha: Seq<u64>)
    requires
        same_language(a, b, alpha),
    ensures
        same_language(b, a, alpha),
{
    assert forall|w: Seq<u64>| word_over(w, alpha) implies (#[trigger] b.accepts(w))
        == a.accepts(w) by {
        assert(a.accepts(w) == b.accepts(w));
    }
}

/// Language equivalence of automata over a fixed alphabet is transitive.
pub proof fn lemma_same_language_transitive(a: Dfa, b: Dfa, c: Dfa, alpha: Seq<u64>)
    requires
        same_language(a, b, alpha),
        same_language(b, c, alpha),
    ensures
        same_language(a, c, alpha),
{
    assert forall|w: Seq<u64>| word_over(w, alpha) implies (#[trigger] a.accepts(w))
        == c.accepts(w) by {
        assert(a.accepts(w) == b.accepts(w));
        assert(b.accepts(w) == c.accepts(w));
    }
}

/// Complementing twice restores the language: if `c1` accepts exactly what `d`
/// rejects, and `c2` accepts exactly what `c1` rejects, then `c2` and `d`
/// accept the same words.
pub proof fn lemma_complement_involution(d: Dfa, c1: Dfa, c2: Dfa, alpha: Seq<u64>)
    requires
        forall|w: Seq<u64>| word_over(w, alpha) ==> (#[trigger] c1.accepts(w)) == !d.accepts(w),
        forall|w: Seq<u64>| word_over(w, alpha) ==> (#[trigger] c2.accepts(w)) == !c1.accepts(w),
    ensures
        same_language(c2, d, alpha),
{
    assert forall|w: Seq<u64>| word_over(w, alpha) implies (#[trigger] c2.accepts(w))
        == d.accepts(w) by {
        assert(c1.accepts(w) == !d.accepts(w));
    }
}

} // verus!
