//! Nondeterministic finite automata with epsilon edges.
//!
//! Acceptance is defined by subset simulation: the automaton holds a set of
//! current states, closed under epsilon edges, and steps it through each
//! symbol of the word; it accepts when the final set meets the accepting set.

#![verifier::loop_isolation(false)]
use vstd::prelude::*;
use vstd::set_lib::lemma_len_subset;
use crate::table::ekeys_distinct;
use crate::table::etable_at;
use crate::table::etable_has;
use crate::table::etable_lookup;
use crate::table::lemma_etable_at;
use crate::table::lemma_etable_push;
use crate::table::lemma_ntable_at;
use crate::table::nkeys_distinct;
use crate::table::ntable_at;
use crate::table::ntable_has;
use crate::table::ntable_lookup;
use crate::table::lemma_ntable_push;
use crate::table::position_of;
use crate::table::vec_all_in;
use crate::table::vec_contains;
use crate::table::vec_no_dups;

verus! {

/// A nondeterministic finite automaton over `u64` states and symbols.
pub struct Nfa {
    pub states: Vec<u64>,
    pub alphabet: Vec<u64>,
    pub start_state: u64,
    pub transitions: Vec<((u64, u64), Vec<u64>)>,
    pub epsilon_transitions: Vec<(u64, Vec<u64>)>,
    pub accepting: Vec<u64>,
}

impl Nfa {
    /// The states reached from `s` on symbol `c` in one step; empty when the
    /// table holds no edge for `(s, c)`.
    pub open spec fn step_targets(self, s: u64, c: u64) -> Seq<u64> {
        ntable_at(self.transitions@, (s, c))
    }

    /// The states reached from `s` by a single epsilon edge.
    pub open spec fn eps_targets(self, s: u64) -> Seq<u64> {
        etable_at(self.epsilon_transitions@, s)
    }

    /// Is `p` a walk along epsilon edges?
    pub open spec fn eps_path(self, p: Seq<u64>) -> bool {
        p.len() >= 1 && forall|i: int|
            0 <= i < p.len() - 1 ==> self.eps_targets(#[trigger] p[i]).contains(p[i + 1])
    }

    /// Can `t` be reached from `s` along epsilon edges alone?
    pub open spec fn eps_reaches(self, s: u64, t: u64) -> bool {
        exists|p: Seq<u64>| self.eps_path(p) && p.first() == s && p.last() == t
    }

    /// All states reachable from `src` along epsilon edges: the smallest
    /// superset of `src` closed under epsilon edges.
    pub open spec fn closure_of(self, src: Set<u64>) -> Set<u64> {
        Set::new(|t: u64| exists|s: u64| src.contains(s) && self.eps_reaches(s, t))
    }

    /// All states one symbol step away from some state of `src`.
    pub open spec fn step_set(self, src: Set<u64>, c: u64) -> Set<u64> {
        Set::new(|t: u64| exists|s: u64| src.contains(s) && self.step_targets(s, c).contains(t))
    }

    /// The set of states the simulation holds after reading `w`, starting
    /// from the already-closed set `src`.
    pub open spec fn sim_from(self, src: Set<u64>, w: Seq<u64>) -> Set<u64>
        decreases w.len(),
    {
        if w.len() == 0 {
            src
        } else {
            self.sim_from(self.closure_of(self.step_set(src, w.first())), w.drop_first())
        }
    }

    /// The simulation's initial set: the epsilon closure of the start state.
    pub open spec fn start_set(self) -> Set<u64> {
        self.closure_of(Set::empty().insert(self.start_state))
    }

    /// Does the automaton accept the word `w`?
    pub open spec fn accepts(self, w: Seq<u64>) -> bool {
        exists|a: u64|
            self.sim_from(self.start_set(), w).contains(a) && self.accepting@.contains(a)
    }

    /// Structural validity as `validate` decides it: duplicate-free
    /// components and tables with distinct keys (what being a set or a map
    /// means for the vector representation), the start state a state,
    /// accepting states inside the state set, and every transition or epsilon
    /// entry that is keyed inside states and alphabet targeting only states.
    /// Entries keyed outside states and alphabet are ignored, as the lookups
    /// that answer membership queries ignore them.
    pub open spec fn valid(self) -> bool {
        &&& self.states@.no_duplicates()
        &&& self.alphabet@.no_duplicates()
        &&& self.accepting@.no_duplicates()
        &&& nkeys_distinct(self.transitions@)
        &&& ekeys_distinct(self.epsilon_transitions@)
        &&& self.states@.contains(self.start_state)
        &&& forall|a: u64| #[trigger] self.accepting@.contains(a) ==> self.states@.contains(a)
        &&& forall|m: int, j: int|
            0 <= m < self.transitions@.len() && self.states@.contains(self.transitions@[m].0.0)
                && self.alphabet@.contains(self.transitions@[m].0.1) && 0 <= j
                < self.transitions@[m].1@.len() ==> self.states@.contains(
                #[trigger] self.transitions@[m].1@[j],
            )
        &&& forall|m: int, j: int|
            0 <= m < self.epsilon_transitions@.len() && self.states@.contains(
                self.epsilon_transitions@[m].0,
            ) && 0 <= j < self.epsilon_transitions@[m].1@.len() ==> self.states@.contains(
                #[trigger] self.epsilon_transitions@[m].1@[j],
            )
    }

    /// The invariant the constructors establish and the operations assume:
    /// `valid()`, and additionally every table entry keyed inside states and
    /// alphabet. The extra clauses are representation invariants of the
    /// builders, not part of what `validate` diagnoses.
    pub open spec fn wf(self) -> bool {
        &&& self.valid()
        &&& forall|m: int|
            0 <= m < self.transitions@.len() ==> self.states@.contains(
                (#[trigger] self.transitions@[m]).0.0,
            ) && self.alphabet@.contains(self.transitions@[m].0.1) && (forall|j: int|
                0 <= j < self.transitions@[m].1@.len() ==> self.states@.contains(
                    #[trigger] self.transitions@[m].1@[j],
                ))
        &&& forall|m: int|
            0 <= m < self.epsilon_transitions@.len() ==> self.states@.contains(
                (#[trigger] self.epsilon_transitions@[m]).0,
            ) && (forall|j: int|
                0 <= j < self.epsilon_transitions@[m].1@.len() ==> self.states@.contains(
                    #[trigger] self.epsilon_transitions@[m].1@[j],
                ))
    }

    /// In a well-formed automaton every epsilon target is a state.
    pub proof fn lemma_eps_targets_in_states(self, s: u64)
        requires
            self.wf(),
        ensures
            forall|j: int|
                0 <= j < self.eps_targets(s).len() ==> self.states@.contains(
                    #[trigger] self.eps_targets(s)[j],
                ),
    {
        if etable_has(self.epsilon_transitions@, s) {
            let m = choose|m: int|
                0 <= m < self.epsilon_transitions@.len() && (
                #[trigger] self.epsilon_transitions@[m]).0 == s;
            lemma_etable_at(self.epsilon_transitions@, s, m);
        }
    }

    /// In a well-formed automaton every symbol-step target is a state.
    pub proof fn lemma_step_targets_in_states(self, s: u64, c: u64)
        requires
            self.wf(),
        ensures
            forall|j: int|
                0 <= j < self.step_targets(s, c).len() ==> self.states@.contains(
                    #[trigger] self.step_targets(s, c)[j],
                ),
    {
        if ntable_has(self.transitions@, (s, c)) {
            let m = choose|m: int|
                0 <= m < self.transitions@.len() && (#[trigger] self.transitions@[m]).0 == (s, c);
            lemma_ntable_at(self.transitions@, (s, c), m);
        }
    }

    /// Is `x` reachable along epsilon edges from some state listed in `start`?
    pub open spec fn eps_from(self, start: Seq<u64>, x: u64) -> bool {
        exists|s: u64| start.contains(s) && self.eps_reaches(s, x)
    }

    /// Every state reaches itself along (zero) epsilon edges.
    pub proof fn lemma_eps_refl(self, s: u64)
        ensures
            self.eps_reaches(s, s),
    {
        let p = seq![s];
        assert(p.len() == 1);
        assert(self.eps_path(p) && p.first() == s && p.last() == s);
    }

    /// Extending an epsilon walk by one edge.
    pub proof fn lemma_eps_step(self, s: u64, t: u64, u: u64)
        requires
            self.eps_reaches(s, t),
            self.eps_targets(t).contains(u),
        ensures
            self.eps_reaches(s, u),
    {
        let p = choose|p: Seq<u64>| self.eps_path(p) && p.first() == s && p.last() == t;
        let p2 = p.push(u);
        assert forall|i: int| 0 <= i < p2.len() - 1 implies self.eps_targets(
            #[trigger] p2[i],
        ).contains(p2[i + 1]) by {
            if i < p.len() - 1 {
                assert(p2[i] == p[i] && p2[i + 1] == p[i + 1]);
                assert(self.eps_targets(p[i]).contains(p[i + 1]));
            } else {
                assert(p2[i] == p.last() && p2[i + 1] == u);
            }
        }
        assert(p2.first() == s && p2.last() == u);
        assert(self.eps_path(p2));
    }

    /// A set of states that contains the head of an epsilon walk and is
    /// closed under epsilon edges contains its end.
    pub proof fn lemma_path_in_closed(self, r: Seq<u64>, p: Seq<u64>)
        requires
            self.eps_path(p),
            r.contains(p.first()),
            forall|x: u64, j: int|
                r.contains(x) && 0 <= j < self.eps_targets(x).len() ==> r.contains(
                    #[trigger] self.eps_targets(x)[j],
                ),
        ensures
            r.contains(p.last()),
        decreases p.len(),
    {
        if p.len() > 1 {
            assert(self.eps_targets(p[0]).contains(p[1]));
            let j = choose|j: int|
                0 <= j < self.eps_targets(p[0]).len() && self.eps_targets(p[0])[j] == p[1];
            assert(r.contains(self.eps_targets(p[0])[j]));
            let p2 = p.drop_first();
            assert forall|i: int| 0 <= i < p2.len() - 1 implies self.eps_targets(
                #[trigger] p2[i],
            ).contains(p2[i + 1]) by {
                assert(p2[i] == p[i + 1] && p2[i + 1] == p[i + 2]);
                assert(self.eps_targets(p[i + 1]).contains(p[i + 2]));
            }
            assert(self.eps_path(p2));
            assert(p2.first() == p[1] && p2.last() == p.last());
            self.lemma_path_in_closed(r, p2);
        }
    }

    /// Reading one more symbol makes one more simulation step.
    pub proof fn lemma_sim_snoc(self, src: Set<u64>, w: Seq<u64>, c: u64)
        ensures
            self.sim_from(src, w.push(c)) == self.closure_of(
                self.step_set(self.sim_from(src, w), c),
            ),
        decreases w.len(),
    {
        if w.len() == 0 {
            assert(w.push(c).first() == c);
            assert(w.push(c).drop_first() =~= Seq::<u64>::empty());
            assert(self.sim_from(src, w) == src);
            assert(self.sim_from(
                self.closure_of(self.step_set(src, c)),
                Seq::<u64>::empty(),
            ) == self.closure_of(self.step_set(src, c)));
        } else {
            assert(w.push(c).first() == w.first());
            assert(w.push(c).drop_first() =~= w.drop_first().push(c));
            self.lemma_sim_snoc(
                self.closure_of(self.step_set(src, w.first())),
                w.drop_first(),
                c,
            );
        }
    }

    /// Look up the symbol transition out of `state`, if the table holds one.
    pub fn transition(&self, state: u64, symbol: u64) -> (r: Option<Vec<u64>>)
        requires
            nkeys_distinct(self.transitions@),
        ensures
            match r {
                Some(v) => ntable_has(self.transitions@, (state, symbol)) && v@
                    == self.step_targets(state, symbol),
                None => !ntable_has(self.transitions@, (state, symbol)),
            },
    {
        ntable_lookup(&self.transitions, state, symbol)
    }

    /// Decide whether the automaton is structurally valid, that is,
    /// whether `valid()` holds of it.
    pub fn validate(&self) -> (r: bool)
        ensures
            r == self.valid(),
    {
        if !vec_no_dups(&self.states) {
            return false;
        }
        if !vec_no_dups(&self.alphabet) {
            return false;
        }
        if !vec_no_dups(&self.accepting) {
            return false;
        }
        // distinct symbol-transition keys
        let mut i: usize = 0;
        while i < self.transitions.len()
            invariant
                0 <= i <= self.transitions@.len(),
                forall|p: int, q: int|
                    0 <= p < q < self.transitions@.len() && p < i ==> (
                    #[trigger] self.transitions@[p]).0 != (#[trigger] self.transitions@[q]).0,
            decreases self.transitions@.len() - i,
        {
            let mut j: usize = i + 1;
            while j < self.transitions.len()
                invariant
                    i < j,
                    forall|q: int|
                        i < q < j ==> self.transitions@[i as int].0 != (
                        #[trigger] self.transitions@[q]).0,
                decreases self.transitions@.len() - j,
            {
                if self.transitions[i].0.0 == self.transitions[j].0.0 && self.transitions[i].0.1
                    == self.transitions[j].0.1 {
                    return false;
                }
                j = j + 1;
            }
            i = i + 1;
        }
        // distinct epsilon keys
        let mut i: usize = 0;
        while i < self.epsilon_transitions.len()
            invariant
                0 <= i <= self.epsilon_transitions@.len(),
                forall|p: int, q: int|
                    0 <= p < q < self.epsilon_transitions@.len() && p < i ==> (
                    #[trigger] self.epsilon_transitions@[p]).0 != (
                    #[trigger] self.epsilon_transitions@[q]).0,
            decreases self.epsilon_transitions@.len() - i,
        {
            let mut j: usize = i + 1;
            while j < self.epsilon_transitions.len()
                invariant
                    i < j,
                    forall|q: int|
                        i < q < j ==> self.epsilon_transitions@[i as int].0 != (
                        #[trigger] self.epsilon_transitions@[q]).0,
                decreases self.epsilon_transitions@.len() - j,
            {
                if self.epsilon_transitions[i].0 == self.epsilon_transitions[j].0 {
                    return false;
                }
                j = j + 1;
            }
            i = i + 1;
        }
        if !vec_contains(&self.states, self.start_state) {
            return false;
        }
        if !vec_all_in(&self.accepting, &self.states) {
            return false;
        }
        // entries keyed inside states and alphabet target only states
        let mut i: usize = 0;
        while i < self.transitions.len()
            invariant
                0 <= i <= self.transitions@.len(),
                forall|m: int, j: int|
                    0 <= m < i && self.states@.contains(self.transitions@[m].0.0)
                        && self.alphabet@.contains(self.transitions@[m].0.1) && 0 <= j
                        < self.transitions@[m].1@.len() ==> self.states@.contains(
                        #[trigger] self.transitions@[m].1@[j],
                    ),
            decreases self.transitions@.len() - i,
        {
            let keyed_in = vec_contains(&self.states, self.transitions[i].0.0) && vec_contains(
                &self.alphabet,
                self.transitions[i].0.1,
            );
            if keyed_in {
                if !vec_all_in(&self.transitions[i].1, &self.states) {
                    proof {
                        let x = choose|x: u64|
                            self.transitions@[i as int].1@.contains(x) && !self.states@.contains(
                                x,
                            );
                        let j = choose|j: int|
                            0 <= j < self.transitions@[i as int].1@.len()
                                && self.transitions@[i as int].1@[j] == x;
                        assert(!self.states@.contains(self.transitions@[i as int].1@[j]));
                    }
                    return false;
                }
            }
            i = i + 1;
        }
        // epsilon entries keyed by a state target only states
        let mut i: usize = 0;
        while i < self.epsilon_transitions.len()
            invariant
                0 <= i <= self.epsilon_transitions@.len(),
                forall|m: int, j: int|
                    0 <= m < i && self.states@.contains(self.epsilon_transitions@[m].0) && 0 <= j
                        < self.epsilon_transitions@[m].1@.len() ==> self.states@.contains(
                        #[trigger] self.epsilon_transitions@[m].1@[j],
                    ),
            decreases self.epsilon_transitions@.len() - i,
        {
            let keyed_in = vec_contains(&self.states, self.epsilon_transitions[i].0);
            if keyed_in {
                if !vec_all_in(&self.epsilon_transitions[i].1, &self.states) {
                    proof {
                        let x = choose|x: u64|
                            self.epsilon_transitions@[i as int].1@.contains(x)
                                && !self.states@.contains(x);
                        let j = choose|j: int|
                            0 <= j < self.epsilon_transitions@[i as int].1@.len()
                                && self.epsilon_transitions@[i as int].1@[j] == x;
                        assert(!self.states@.contains(self.epsilon_transitions@[i as int].1@[j]));
                    }
                    return false;
                }
            }
            i = i + 1;
        }
        true
    }

    /// All states reachable from the states of `start` along epsilon edges.
    #[verifier::rlimit(100)]
    #[verifier::spinoff_prover]
    pub fn epsilon_closure(&self, start: &Vec<u64>) -> (r: Vec<u64>)
        requires
            self.wf(),
            forall|j: int| 0 <= j < start@.len() ==> self.states@.contains(#[trigger] start@[j]),
        ensures
            r@.no_duplicates(),
            forall|x: u64| #[trigger] r@.contains(x) ==> self.states@.contains(x),
            forall|x: u64|
                #[trigger] r@.contains(x) <==> self.closure_of(start@.to_set()).contains(x),
    {
        let mut result: Vec<u64> = Vec::new();
        let mut stack: Vec<u64> = Vec::new();
        let mut i: usize = 0;
        while i < start.len()
            invariant
                0 <= i <= start@.len(),
                stack@.len() == i,
                forall|j: int| 0 <= j < i ==> #[trigger] stack@[j] == start@[j],
            decreases start@.len() - i,
        {
            stack.push(start[i]);
            i = i + 1;
        }
        proof {
            assert(stack@ =~= start@);
            assert forall|x: u64| #[trigger] stack@.contains(x) implies self.states@.contains(x)
                && self.eps_from(start@, x) by {
                let m = choose|m: int| 0 <= m < stack@.len() && stack@[m] == x;
                assert(self.states@.contains(start@[m]));
                self.lemma_eps_refl(x);
                assert(start@.contains(x) && self.eps_reaches(x, x));
            }
        }
        while stack.len() > 0
            invariant
                result@.no_duplicates(),
                result@.len() <= self.states@.len(),
                forall|x: u64|
                    #[trigger] result@.contains(x) ==> self.states@.contains(x) && self.eps_from(start@, x),
                forall|x: u64|
                    #[trigger] stack@.contains(x) ==> self.states@.contains(x)
                        && self.eps_from(start@, x),
                forall|s: u64|
                    #[trigger] start@.contains(s) ==> result@.contains(s) || stack@.contains(s),
                forall|x: u64, j: int|
                    result@.contains(x) && 0 <= j < self.eps_targets(x).len() ==> result@.contains(
                        #[trigger] self.eps_targets(x)[j],
                    ) || stack@.contains(self.eps_targets(x)[j]),
            decreases self.states@.len() - result@.len(), stack@.len(),
        {
            let ghost old_stack = stack@;
            let x = match stack.pop() {
                Some(v) => v,
                None => unreached(),
            };
            proof {
                assert(old_stack.contains(old_stack.last()));
                assert forall|y: u64| #[trigger] stack@.contains(y) implies old_stack.contains(
                    y,
                ) by {
                    let i2 = choose|i2: int| 0 <= i2 < stack@.len() && stack@[i2] == y;
                    assert(old_stack[i2] == y);
                }
            }
            if !vec_contains(&result, x) {
                let ghost pre_result = result@;
                result.push(x);
                let ghost mid_result = result@;
                let ghost post_pop = stack@;
                proof {
                    assert(mid_result[pre_result.len() as int] == x);
                    assert(mid_result.contains(x));
                    assert forall|y: u64| #[trigger] result@.contains(y)
                        implies self.states@.contains(y) && self.eps_from(start@, y) by {
                        let i2 = choose|i2: int| 0 <= i2 < result@.len() && result@[i2] == y;
                        if i2 < pre_result.len() {
                            assert(pre_result[i2] == y);
                            assert(pre_result.contains(y));
                        } else {
                            assert(y == x);
                        }
                    }
                    assert forall|y: u64, j: int|
                        result@.contains(y) && 0 <= j < self.eps_targets(y).len() && y != x
                            implies result@.contains(#[trigger] self.eps_targets(y)[j])
                            || stack@.contains(self.eps_targets(y)[j]) by {
                        let i2 = choose|i2: int| 0 <= i2 < result@.len() && result@[i2] == y;
                        if i2 < pre_result.len() {
                            assert(pre_result[i2] == y);
                            assert(pre_result.contains(y));
                        }
                        let t = self.eps_targets(y)[j];
                        if pre_result.contains(t) {
                            let m = choose|m: int| 0 <= m < pre_result.len() && pre_result[m] == t;
                            assert(result@[m] == t);
                            assert(result@.contains(t));
                        } else {
                            assert(old_stack.contains(t));
                            let m = choose|m: int| 0 <= m < old_stack.len() && old_stack[m] == t;
                            if m < old_stack.len() - 1 {
                                assert(stack@[m] == t);
                                assert(stack@.contains(t));
                            } else {
                                assert(t == x);
                                assert(result@.contains(t));
                            }
                        }
                    }
                    assert forall|s: u64| #[trigger] start@.contains(s) implies result@.contains(s)
                        || stack@.contains(s) by {
                        if pre_result.contains(s) {
                            let m = choose|m: int| 0 <= m < pre_result.len() && pre_result[m] == s;
                            assert(result@[m] == s);
                        } else if old_stack.contains(s) {
                            let m = choose|m: int| 0 <= m < old_stack.len() && old_stack[m] == s;
                            if m < old_stack.len() - 1 {
                                assert(stack@[m] == s);
                            } else {
                                assert(s == x);
                            }
                        }
                    }
                    result@.unique_seq_to_set();
                    self.states@.unique_seq_to_set();
                    assert(result@.to_set().subset_of(self.states@.to_set())) by {
                        assert forall|y: u64| result@.to_set().contains(y)
                            implies self.states@.to_set().contains(y) by {
                            assert(result@.contains(y));
                        }
                    }
                    lemma_len_subset(result@.to_set(), self.states@.to_set());
                }
                let targets = match etable_lookup(&self.epsilon_transitions, x) {
                    Some(v) => v,
                    None => Vec::new(),
                };
                proof {
                    assert(targets@ =~= self.eps_targets(x));
                    self.lemma_eps_targets_in_states(x);
                }
                let mut j: usize = 0;
                while j < targets.len()
                    invariant
                        0 <= j <= targets@.len(),
                        targets@ == self.eps_targets(x),
                        result@ == mid_result,
                        mid_result.contains(x),
                        forall|y: u64| #[trigger] post_pop.contains(y) ==> stack@.contains(y),
                        forall|y: u64|
                            #[trigger] stack@.contains(y) ==> self.states@.contains(y)
                                && self.eps_from(start@, y),
                        forall|q: int|
                            0 <= q < j ==> result@.contains(#[trigger] self.eps_targets(x)[q])
                                || stack@.contains(self.eps_targets(x)[q]),
                        forall|y: u64, q: int|
                            result@.contains(y) && 0 <= q < self.eps_targets(y).len() && y != x
                                ==> result@.contains(#[trigger] self.eps_targets(y)[q])
                                || stack@.contains(self.eps_targets(y)[q]),
                        forall|s: u64|
                            #[trigger] start@.contains(s) ==> result@.contains(s)
                                || stack@.contains(s),
                    decreases targets@.len() - j,
                {
                    let t = targets[j];
                    let ghost pre_stack = stack@;
                    stack.push(t);
                    proof {
                        assert forall|y: u64| pre_stack.contains(y) implies #[trigger] stack@.contains(
                            y,
                        ) by {
                            let m = choose|m: int| 0 <= m < pre_stack.len() && pre_stack[m] == y;
                            assert(stack@[m] == y);
                        }
                        assert(stack@[pre_stack.len() as int] == t);
                        assert(stack@.contains(t));
                        assert(self.eps_from(start@, x));
                        let s0 = choose|s0: u64|
                            start@.contains(s0) && self.eps_reaches(s0, x);
                        self.lemma_eps_step(s0, x, t);
                        assert(self.eps_from(start@, t));
                        assert(self.states@.contains(self.eps_targets(x)[j as int]));
                        assert forall|y: u64| #[trigger] stack@.contains(y)
                            implies self.states@.contains(y) && self.eps_from(start@, y) by {
                            let m = choose|m: int| 0 <= m < stack@.len() && stack@[m] == y;
                            if m < pre_stack.len() {
                                assert(pre_stack[m] == y);
                                assert(pre_stack.contains(y));
                            } else {
                                assert(y == t);
                            }
                        }
                    }
                    j = j + 1;
                }
                proof {
                    assert forall|y: u64, q: int|
                        result@.contains(y) && 0 <= q < self.eps_targets(y).len()
                            implies result@.contains(#[trigger] self.eps_targets(y)[q])
                            || stack@.contains(self.eps_targets(y)[q]) by {
                        if y == x {
                            assert(result@.contains(self.eps_targets(x)[q]) || stack@.contains(
                                self.eps_targets(x)[q],
                            ));
                        }
                    }
                }
            } else {
                proof {
                    assert forall|y: u64, q: int|
                        result@.contains(y) && 0 <= q < self.eps_targets(y).len()
                            implies result@.contains(#[trigger] self.eps_targets(y)[q])
                            || stack@.contains(self.eps_targets(y)[q]) by {
                        let t = self.eps_targets(y)[q];
                        if old_stack.contains(t) {
                            let m = choose|m: int| 0 <= m < old_stack.len() && old_stack[m] == t;
                            if m < old_stack.len() - 1 {
                                assert(stack@[m] == t);
                                assert(stack@.contains(t));
                            } else {
                                assert(t == x);
                            }
                        }
                    }
                    assert forall|s: u64| #[trigger] start@.contains(s) implies result@.contains(s)
                        || stack@.contains(s) by {
                        if !result@.contains(s) && old_stack.contains(s) {
                            let m = choose|m: int| 0 <= m < old_stack.len() && old_stack[m] == s;
                            if m < old_stack.len() - 1 {
                                assert(stack@[m] == s);
                            } else {
                                assert(s == x);
                            }
                        }
                    }
                }
            }
        }
        proof {
            assert forall|x: u64| #[trigger] result@.contains(x)
                implies self.closure_of(start@.to_set()).contains(x) by {
                assert(self.eps_from(start@, x));
                let s = choose|s: u64| start@.contains(s) && self.eps_reaches(s, x);
                assert(start@.to_set().contains(s));
            }
            assert forall|x: u64| self.closure_of(start@.to_set()).contains(x)
                implies #[trigger] result@.contains(x) by {
                let s = choose|s: u64| start@.to_set().contains(s) && self.eps_reaches(s, x);
                assert(start@.contains(s));
                let p = choose|p: Seq<u64>| self.eps_path(p) && p.first() == s && p.last() == x;
                assert(result@.contains(s));
                self.lemma_path_in_closed(result@, p);
            }
        }
        result
    }

    /// Read a word symbol by symbol, tracking the set of possible states,
    /// and report whether the final set meets the accepting set.
    pub fn parse_string(&self, string: &Vec<u64>) -> (r: bool)
        requires
            self.wf(),
        ensures
            r == self.accepts(string@),
    {
        let ghost w = string@;
        let mut seed: Vec<u64> = Vec::new();
        seed.push(self.start_state);
        let mut current = self.epsilon_closure(&seed);
        proof {
            assert(seed@.len() == 1 && seed@[0] == self.start_state);
            assert(seed@.contains(self.start_state));
            assert forall|x: u64| seed@.contains(x) implies x == self.start_state by {
                let m = choose|m: int| 0 <= m < seed@.len() && seed@[m] == x;
            }
            assert(seed@.to_set() =~= Set::empty().insert(self.start_state));
            assert(w.subrange(0, 0) =~= Seq::<u64>::empty());
            assert forall|x: u64| #[trigger] current@.contains(x) <==> self.sim_from(
                self.start_set(),
                w.subrange(0, 0),
            ).contains(x) by {}
        }
        let mut i: usize = 0;
        while i < string.len()
            invariant
                0 <= i <= w.len(),
                w == string@,
                current@.no_duplicates(),
                forall|x: u64| #[trigger] current@.contains(x) ==> self.states@.contains(x),
                forall|x: u64|
                    #[trigger] current@.contains(x) <==> self.sim_from(
                        self.start_set(),
                        w.subrange(0, i as int),
                    ).contains(x),
            decreases w.len() - i,
        {
            let c = string[i];
            let mut imm: Vec<u64> = Vec::new();
            let mut si: usize = 0;
            while si < current.len()
                invariant
                    0 <= si <= current@.len(),
                    imm@.no_duplicates(),
                    forall|x: u64| #[trigger] imm@.contains(x) ==> self.states@.contains(x),
                    forall|x: u64|
                        #[trigger] imm@.contains(x) <==> exists|p: int|
                            0 <= p < si && self.step_targets(current@[p], c).contains(x),
                decreases current@.len() - si,
            {
                match self.transition(current[si], c) {
                    None => {
                        proof {
                            assert(self.step_targets(current@[si as int], c) =~= Seq::<
                                u64,
                            >::empty());
                            assert forall|x: u64| #[trigger] imm@.contains(x) implies exists|
                                p: int,
                            |
                                0 <= p < si + 1 && self.step_targets(current@[p], c).contains(
                                    x,
                                ) by {
                                let p = choose|p: int|
                                    0 <= p < si && self.step_targets(current@[p], c).contains(x);
                                assert(0 <= p < si + 1 && self.step_targets(
                                    current@[p],
                                    c,
                                ).contains(x));
                            }
                            assert forall|x: u64|
                                (exists|p: int|
                                    0 <= p < si + 1 && self.step_targets(current@[p], c).contains(
                                        x,
                                    )) implies #[trigger] imm@.contains(x) by {
                                let p = choose|p: int|
                                    0 <= p < si + 1 && self.step_targets(current@[p], c).contains(
                                        x,
                                    );
                                assert(p < si);
                            }
                        }
                    },
                    Some(ts) => {
                        proof {
                            self.lemma_step_targets_in_states(current@[si as int], c);
                        }
                        let mut j: usize = 0;
                        while j < ts.len()
                            invariant
                                0 <= j <= ts@.len(),
                                ts@ == self.step_targets(current@[si as int], c),
                                imm@.no_duplicates(),
                                forall|x: u64|
                                    #[trigger] imm@.contains(x) ==> self.states@.contains(x),
                                forall|x: u64|
                                    #[trigger] imm@.contains(x) <==> ((exists|p: int|
                                        0 <= p < si && self.step_targets(current@[p], c).contains(
                                            x,
                                        )) || (exists|q: int| 0 <= q < j && ts@[q] == x)),
                            decreases ts@.len() - j,
                        {
                            let t = ts[j];
                            let ghost pre = imm@;
                            if !vec_contains(&imm, t) {
                                imm.push(t);
                            }
                            proof {
                                if !pre.contains(t) {
                                    assert(imm@[pre.len() as int] == t);
                                }
                                assert(imm@.contains(t));
                                assert forall|x: u64| #[trigger] imm@.contains(x) implies ((exists|
                                    p: int,
                                |
                                    0 <= p < si && self.step_targets(current@[p], c).contains(x))
                                    || (exists|q: int| 0 <= q < j + 1 && ts@[q] == x)) by {
                                    let m = choose|m: int| 0 <= m < imm@.len() && imm@[m] == x;
                                    if m < pre.len() {
                                        assert(pre[m] == x);
                                        assert(pre.contains(x));
                                    } else {
                                        assert(x == t);
                                        assert(ts@[j as int] == x);
                                    }
                                }
                                assert forall|x: u64|
                                    ((exists|p: int|
                                        0 <= p < si && self.step_targets(current@[p], c).contains(
                                            x,
                                        )) || (exists|q: int|
                                        0 <= q < j + 1 && ts@[q] == x)) implies #[trigger] imm@.contains(
                                    x,
                                ) by {
                                    if exists|q: int| 0 <= q < j + 1 && ts@[q] == x {
                                        let q = choose|q: int| 0 <= q < j + 1 && ts@[q] == x;
                                        if q < j {
                                            assert(pre.contains(x));
                                            let m = choose|m: int|
                                                0 <= m < pre.len() && pre[m] == x;
                                            assert(imm@[m] == x);
                                        } else {
                                            assert(x == t);
                                        }
                                    } else {
                                        assert(pre.contains(x));
                                        let m = choose|m: int| 0 <= m < pre.len() && pre[m] == x;
                                        assert(imm@[m] == x);
                                    }
                                }
                            }
                            j = j + 1;
                        }
                        proof {
                            assert forall|x: u64| #[trigger] imm@.contains(x) implies exists|
                                p: int,
                            |
                                0 <= p < si + 1 && self.step_targets(current@[p], c).contains(
                                    x,
                                ) by {
                                if exists|p: int|
                                    0 <= p < si && self.step_targets(current@[p], c).contains(x) {
                                    let p = choose|p: int|
                                        0 <= p < si && self.step_targets(current@[p], c).contains(
                                            x,
                                        );
                                    assert(0 <= p < si + 1 && self.step_targets(
                                        current@[p],
                                        c,
                                    ).contains(x));
                                } else {
                                    let q = choose|q: int| 0 <= q < ts@.len() && ts@[q] == x;
                                    assert(self.step_targets(current@[si as int], c).contains(x));
                                }
                            }
                            assert forall|x: u64|
                                (exists|p: int|
                                    0 <= p < si + 1 && self.step_targets(current@[p], c).contains(
                                        x,
                                    )) implies #[trigger] imm@.contains(x) by {
                                let p = choose|p: int|
                                    0 <= p < si + 1 && self.step_targets(current@[p], c).contains(
                                        x,
                                    );
                                if p == si as int {
                                    let q = choose|q: int|
                                        0 <= q < ts@.len() && ts@[q] == x;
                                }
                            }
                        }
                    },
                }
                si = si + 1;
            }
            proof {
                let ghost cur_set = self.sim_from(self.start_set(), w.subrange(0, i as int));
                assert(imm@.to_set() =~= self.step_set(cur_set, c)) by {
                    assert forall|x: u64| imm@.to_set().contains(x) implies self.step_set(
                        cur_set,
                        c,
                    ).contains(x) by {
                        assert(imm@.contains(x));
                        let p = choose|p: int|
                            0 <= p < current@.len() && self.step_targets(current@[p], c).contains(
                                x,
                            );
                        assert(current@.contains(current@[p]));
                        assert(cur_set.contains(current@[p]));
                    }
                    assert forall|x: u64| self.step_set(cur_set, c).contains(x)
                        implies imm@.to_set().contains(x) by {
                        let s = choose|s: u64|
                            cur_set.contains(s) && self.step_targets(s, c).contains(x);
                        assert(current@.contains(s));
                        let p = choose|p: int| 0 <= p < current@.len() && current@[p] == s;
                        assert(0 <= p < current@.len() && self.step_targets(
                            current@[p],
                            c,
                        ).contains(x));
                        assert(imm@.contains(x));
                    }
                }
            }
            proof {
                assert forall|j: int| 0 <= j < imm@.len() implies self.states@.contains(
                    #[trigger] imm@[j],
                ) by {
                    assert(imm@.contains(imm@[j]));
                }
            }
            let next = self.epsilon_closure(&imm);
            proof {
                let ghost cur_set = self.sim_from(self.start_set(), w.subrange(0, i as int));
                self.lemma_sim_snoc(self.start_set(), w.subrange(0, i as int), c);
                assert(w.subrange(0, i as int).push(w[i as int]) =~= w.subrange(0, i as int + 1));
                assert forall|x: u64| #[trigger] next@.contains(x) <==> self.sim_from(
                    self.start_set(),
                    w.subrange(0, i as int + 1),
                ).contains(x) by {
                    assert(next@.contains(x) <==> self.closure_of(imm@.to_set()).contains(x));
                }
            }
            current = next;
            i = i + 1;
        }
        proof {
            assert(w.subrange(0, w.len() as int) =~= w);
        }
        let mut ai: usize = 0;
        while ai < current.len()
            invariant
                0 <= ai <= current@.len(),
                forall|j: int| 0 <= j < ai ==> !self.accepting@.contains(#[trigger] current@[j]),
            decreases current@.len() - ai,
        {
            if vec_contains(&self.accepting, current[ai]) {
                proof {
                    assert(current@.contains(current@[ai as int]));
                    assert(self.sim_from(self.start_set(), w).contains(current@[ai as int]));
                }
                return true;
            }
            ai = ai + 1;
        }
        proof {
            if self.accepts(w) {
                let a = choose|a: u64|
                    self.sim_from(self.start_set(), w).contains(a) && self.accepting@.contains(a);
                assert(current@.contains(a));
                let j = choose|j: int| 0 <= j < current@.len() && current@[j] == a;
                assert(!self.accepting@.contains(current@[j]));
            }
        }
        false
    }
}

/// The closure of the empty set is empty, and stepping the empty set gives
/// the empty set, so the simulation never escapes the empty set.
impl Nfa {
    /// Simulation from the empty set stays empty.
    pub proof fn lemma_sim_of_empty(self, w: Seq<u64>)
        ensures
            self.sim_from(Set::empty(), w) == Set::<u64>::empty(),
        decreases w.len(),
    {
        if w.len() > 0 {
            assert(self.step_set(Set::empty(), w.first()) =~= Set::<u64>::empty());
            assert(self.closure_of(Set::empty()) =~= Set::<u64>::empty());
            self.lemma_sim_of_empty(w.drop_first());
        }
    }

    /// Without epsilon edges, the closure of a set is the set itself.
    pub proof fn lemma_closure_no_eps(self, src: Set<u64>)
        requires
            self.epsilon_transitions@.len() == 0,
        ensures
            self.closure_of(src) == src,
    {
        assert forall|t: u64| self.closure_of(src).contains(t) implies src.contains(t) by {
            let s = choose|s: u64| src.contains(s) && self.eps_reaches(s, t);
            let p = choose|p: Seq<u64>| self.eps_path(p) && p.first() == s && p.last() == t;
            if p.len() > 1 {
                assert(self.eps_targets(p[0]).contains(p[1]));
                assert(!etable_has(self.epsilon_transitions@, p[0]));
                assert(self.eps_targets(p[0]) =~= Seq::<u64>::empty());
                assert(false);
            }
        }
        assert forall|t: u64| src.contains(t) implies self.closure_of(src).contains(t) by {
            self.lemma_eps_refl(t);
        }
        assert(self.closure_of(src) =~= src);
    }

    /// The NFA with one non-accepting state and no edges: it accepts nothing.
    pub fn empty(alphabet: Vec<u64>) -> (r: Nfa)
        requires
            alphabet@.no_duplicates(),
        ensures
            r.wf(),
            r.alphabet@ == alphabet@,
            r.states@ == seq![0u64],
            r.start_state == 0u64,
            r.transitions@.len() == 0,
            r.epsilon_transitions@.len() == 0,
            r.accepting@.len() == 0,
            forall|w: Seq<u64>| !(#[trigger] r.accepts(w)),
    {
        let mut states: Vec<u64> = Vec::new();
        states.push(0u64);
        let r = Nfa {
            states,
            alphabet,
            start_state: 0u64,
            transitions: Vec::new(),
            epsilon_transitions: Vec::new(),
            accepting: Vec::new(),
        };
        proof {
            assert(r.states@[0] == 0u64);
            assert(r.states@.contains(0u64));
        }
        r
    }

    /// The NFA with one accepting state and no edges: it accepts exactly the
    /// empty word.
    pub fn epsilon(alphabet: Vec<u64>) -> (r: Nfa)
        requires
            alphabet@.no_duplicates(),
        ensures
            r.wf(),
            r.alphabet@ == alphabet@,
            r.states@ == seq![0u64],
            r.start_state == 0u64,
            r.transitions@.len() == 0,
            r.epsilon_transitions@.len() == 0,
            r.accepting@ == seq![0u64],
            forall|w: Seq<u64>| #[trigger] r.accepts(w) <==> w.len() == 0,
    {
        let mut states: Vec<u64> = Vec::new();
        states.push(0u64);
        let mut accepting: Vec<u64> = Vec::new();
        accepting.push(0u64);
        let r = Nfa {
            states,
            alphabet,
            start_state: 0u64,
            transitions: Vec::new(),
            epsilon_transitions: Vec::new(),
            accepting,
        };
        proof {
            assert(r.states@[0] == 0u64);
            assert(r.states@.contains(0u64));
            assert(r.accepting@[0] == 0u64);
            assert(r.accepting@.contains(0u64));
            r.lemma_closure_no_eps(Set::empty().insert(0u64));
            assert forall|w: Seq<u64>| #[trigger] r.accepts(w) <==> w.len() == 0 by {
                if w.len() == 0 {
                    assert(r.sim_from(r.start_set(), w) == r.start_set());
                    assert(r.start_set().contains(0u64));
                    assert(r.accepts(w));
                } else {
                    assert(r.step_targets(0u64, w.first()) =~= Seq::<u64>::empty());
                    assert(r.step_set(r.start_set(), w.first()) =~= Set::<u64>::empty()) by {
                        assert forall|t: u64|
                            r.step_set(r.start_set(), w.first()).contains(t) implies false by {
                            let s = choose|s: u64|
                                r.start_set().contains(s) && r.step_targets(
                                    s,
                                    w.first(),
                                ).contains(t);
                            assert(s == 0u64);
                        }
                    }
                    assert(r.closure_of(Set::empty()) =~= Set::<u64>::empty());
                    r.lemma_sim_of_empty(w.drop_first());
                    assert(r.sim_from(r.start_set(), w) == Set::<u64>::empty());
                    assert(!r.accepts(w));
                }
            }
        }
        r
    }

    /// The two-state NFA that accepts exactly the one-symbol word `symbol`.
    pub fn character(alphabet: Vec<u64>, symbol: u64) -> (r: Nfa)
        requires
            alphabet@.no_duplicates(),
            alphabet@.contains(symbol),
        ensures
            r.wf(),
            r.alphabet@ == alphabet@,
            r.states@ == seq![0u64, 1u64],
            r.start_state == 0u64,
            r.accepting@ == seq![1u64],
            r.epsilon_transitions@.len() == 0,
            r.transitions@.len() == 1,
            r.transitions@[0].0 == (0u64, symbol),
            r.transitions@[0].1@ == seq![1u64],
            forall|w: Seq<u64>| #[trigger] r.accepts(w) <==> (w.len() == 1 && w[0] == symbol),
    {
        let mut states: Vec<u64> = Vec::new();
        states.push(0u64);
        states.push(1u64);
        let mut accepting: Vec<u64> = Vec::new();
        accepting.push(1u64);
        let mut target: Vec<u64> = Vec::new();
        target.push(1u64);
        let mut transitions: Vec<((u64, u64), Vec<u64>)> = Vec::new();
        transitions.push(((0u64, symbol), target));
        let r = Nfa {
            states,
            alphabet,
            start_state: 0u64,
            transitions,
            epsilon_transitions: Vec::new(),
            accepting,
        };
        proof {
            assert(r.states@[0] == 0u64 && r.states@[1] == 1u64);
            assert(r.states@.contains(0u64) && r.states@.contains(1u64));
            assert(r.accepting@[0] == 1u64);
            assert(r.accepting@.contains(1u64));
            assert(r.transitions@[0].0 == (0u64, symbol) && r.transitions@[0].1@ =~= seq![1u64]);
            assert(r.transitions@[0].1@.contains(1u64));
            assert(r.wf());
            lemma_ntable_at(r.transitions@, (0u64, symbol), 0);
            assert forall|s: u64, c: u64| (s, c) != (0u64, symbol) implies r.step_targets(s, c)
                =~= Seq::<u64>::empty() by {
                if ntable_has(r.transitions@, (s, c)) {
                    let m = choose|m: int|
                        0 <= m < r.transitions@.len() && (#[trigger] r.transitions@[m]).0 == (
                        s,
                        c,
                        );
                    assert(m == 0);
                    assert(false);
                }
            }
            r.lemma_closure_no_eps(Set::empty().insert(0u64));
            assert forall|w: Seq<u64>| #[trigger] r.accepts(w) <==> (w.len() == 1 && w[0]
                == symbol) by {
                if w.len() == 0 {
                    assert(r.sim_from(r.start_set(), w) == r.start_set());
                    if r.accepts(w) {
                        let a = choose|a: u64|
                            r.sim_from(r.start_set(), w).contains(a) && r.accepting@.contains(a);
                        assert(a == 0u64);
                        let m = choose|m: int|
                            0 <= m < r.accepting@.len() && r.accepting@[m] == a;
                        assert(false);
                    }
                } else {
                    let c = w.first();
                    if c == symbol {
                        assert(r.step_targets(0u64, c) == seq![1u64]);
                        assert(r.step_set(r.start_set(), c) =~= Set::empty().insert(1u64)) by {
                            assert(r.start_set().contains(0u64));
                            assert(r.step_targets(0u64, c).contains(1u64));
                            assert forall|t: u64|
                                r.step_set(r.start_set(), c).contains(t) implies t == 1u64 by {
                                let s = choose|s: u64|
                                    r.start_set().contains(s) && r.step_targets(s, c).contains(t);
                                assert(s == 0u64);
                                let m = choose|m: int|
                                    0 <= m < r.step_targets(0u64, c).len() && r.step_targets(
                                        0u64,
                                        c,
                                    )[m] == t;
                            }
                        }
                        r.lemma_closure_no_eps(Set::empty().insert(1u64));
                        if w.len() == 1 {
                            assert(w.drop_first().len() == 0);
                            assert(r.sim_from(Set::empty().insert(1u64), w.drop_first())
                                == Set::empty().insert(1u64));
                            assert(r.sim_from(r.start_set(), w) == r.sim_from(
                                r.closure_of(r.step_set(r.start_set(), w.first())),
                                w.drop_first(),
                            ));
                            assert(r.closure_of(r.step_set(r.start_set(), w.first()))
                                == Set::empty().insert(1u64));
                            assert(r.sim_from(r.start_set(), w) == Set::empty().insert(1u64));
                            assert(r.sim_from(r.start_set(), w).contains(1u64));
                            assert(r.accepts(w));
                        } else {
                            let w2 = w.drop_first();
                            let d = w2.first();
                            assert(r.step_targets(1u64, d) =~= Seq::<u64>::empty());
                            assert(r.step_set(Set::empty().insert(1u64), d) =~= Set::<
                                u64,
                            >::empty()) by {
                                assert forall|t: u64|
                                    r.step_set(Set::empty().insert(1u64), d).contains(
                                        t,
                                    ) implies false by {
                                    let s = choose|s: u64|
                                        Set::empty().insert(1u64).contains(s) && r.step_targets(
                                            s,
                                            d,
                                        ).contains(t);
                                    assert(s == 1u64);
                                }
                            }
                            assert(r.closure_of(Set::empty()) =~= Set::<u64>::empty());
                            r.lemma_sim_of_empty(w2.drop_first());
                            assert(r.closure_of(r.step_set(r.start_set(), w.first()))
                                == Set::empty().insert(1u64));
                            assert(r.sim_from(r.start_set(), w) == r.sim_from(
                                Set::empty().insert(1u64),
                                w2,
                            ));
                            assert(r.closure_of(r.step_set(Set::empty().insert(1u64), d))
                                == Set::<u64>::empty());
                            assert(r.sim_from(Set::empty().insert(1u64), w2) == r.sim_from(
                                Set::<u64>::empty(),
                                w2.drop_first(),
                            ));
                            assert(r.sim_from(r.start_set(), w) == Set::<u64>::empty());
                            assert(!r.accepts(w));
                        }
                    } else {
                        assert(r.step_targets(0u64, c) =~= Seq::<u64>::empty());
                        assert(r.step_set(r.start_set(), c) =~= Set::<u64>::empty()) by {
                            assert forall|t: u64|
                                r.step_set(r.start_set(), c).contains(t) implies false by {
                                let s = choose|s: u64|
                                    r.start_set().contains(s) && r.step_targets(s, c).contains(t);
                                assert(s == 0u64);
                            }
                        }
                        assert(r.closure_of(Set::empty()) =~= Set::<u64>::empty());
                        r.lemma_sim_of_empty(w.drop_first());
                        assert(r.closure_of(r.step_set(r.start_set(), w.first())) == Set::<
                            u64,
                        >::empty());
                        assert(r.sim_from(r.start_set(), w) == r.sim_from(
                            Set::<u64>::empty(),
                            w.drop_first(),
                        ));
                        assert(r.sim_from(r.start_set(), w) == Set::<u64>::empty());
                        assert(!r.accepts(w));
                    }
                }
            }
        }
        r
    }
}

/// In a densely numbered state list, membership is the same as being below
/// the length.
pub proof fn lemma_dense_members(states: Seq<u64>)
    requires
        forall|m: int| 0 <= m < states.len() ==> #[trigger] states[m] == m as u64,
        states.len() <= u64::MAX,
    ensures
        forall|x: u64| #[trigger] states.contains(x) <==> (x as int) < states.len(),
{
    assert forall|x: u64| #[trigger] states.contains(x) implies (x as int) < states.len() by {
        let m = choose|m: int| 0 <= m < states.len() && states[m] == x;
    }
    assert forall|x: u64| (x as int) < states.len() implies #[trigger] states.contains(x) by {
        assert(states[x as int] == x);
    }
}

/// A copy of `v` with `off` added to every element.
fn copy_shifted(v: &Vec<u64>, off: u64) -> (r: Vec<u64>)
    requires
        forall|j: int| 0 <= j < v@.len() ==> (#[trigger] v@[j] as int) + (off as int) <= u64::MAX,
    ensures
        r@ == v@.map_values(|t: u64| (t + off) as u64),
{
    let mut r: Vec<u64> = Vec::new();
    let mut j: usize = 0;
    while j < v.len()
        invariant
            0 <= j <= v@.len(),
            r@.len() == j,
            forall|m: int| 0 <= m < j ==> #[trigger] r@[m] == (v@[m] + off) as u64,
        decreases v@.len() - j,
    {
        proof {
            assert((v@[j as int] as int) + (off as int) <= u64::MAX);
        }
        r.push(v[j] + off);
        j = j + 1;
    }
    proof {
        assert(r@ =~= v@.map_values(|t: u64| (t + off) as u64));
    }
    r
}

/// Append the symbol-transition entries of `src` to `dst`, adding `off` to
/// every state identifier.
fn extend_shifted_ntable(
    dst: &mut Vec<((u64, u64), Vec<u64>)>,
    src: &Vec<((u64, u64), Vec<u64>)>,
    off: u64,
)
    requires
        forall|m: int|
            0 <= m < src@.len() ==> ((#[trigger] src@[m]).0.0 as int) + (off as int) <= u64::MAX
                && (forall|j: int|
                0 <= j < src@[m].1@.len() ==> (#[trigger] src@[m].1@[j] as int) + (off as int)
                    <= u64::MAX),
    ensures
        final(dst)@.len() == old(dst)@.len() + src@.len(),
        forall|m: int| 0 <= m < old(dst)@.len() ==> #[trigger] final(dst)@[m] == old(dst)@[m],
        forall|m: int|
            0 <= m < src@.len() ==> (#[trigger] final(dst)@[old(dst)@.len() + m]).0 == (
                ((src@[m].0.0 + off) as u64),
                src@[m].0.1,
            ) && final(dst)@[old(dst)@.len() + m].1@ == src@[m].1@.map_values(
                |t: u64| (t + off) as u64,
            ),
{
    let base = dst.len();
    let mut i: usize = 0;
    while i < src.len()
        invariant
            0 <= i <= src@.len(),
            dst@.len() == base + i,
            base == old(dst)@.len(),
            forall|m: int| 0 <= m < base ==> #[trigger] dst@[m] == old(dst)@[m],
            forall|m: int|
                0 <= m < i ==> (#[trigger] dst@[base + m]).0 == (
                    ((src@[m].0.0 + off) as u64),
                    src@[m].0.1,
                ) && dst@[base + m].1@ == src@[m].1@.map_values(|t: u64| (t + off) as u64),
        decreases src@.len() - i,
    {
        proof {
            assert((src@[i as int].0.0 as int) + (off as int) <= u64::MAX);
        }
        let shifted = copy_shifted(&src[i].1, off);
        dst.push(((src[i].0.0 + off, src[i].0.1), shifted));
        i = i + 1;
    }
}

/// Append the epsilon entries of `src` to `dst`, adding `off` to every
/// state identifier.
fn extend_shifted_etable(dst: &mut Vec<(u64, Vec<u64>)>, src: &Vec<(u64, Vec<u64>)>, off: u64)
    requires
        forall|m: int|
            0 <= m < src@.len() ==> ((#[trigger] src@[m]).0 as int) + (off as int) <= u64::MAX && (
            forall|j: int|
                0 <= j < src@[m].1@.len() ==> (#[trigger] src@[m].1@[j] as int) + (off as int)
                    <= u64::MAX),
    ensures
        final(dst)@.len() == old(dst)@.len() + src@.len(),
        forall|m: int| 0 <= m < old(dst)@.len() ==> #[trigger] final(dst)@[m] == old(dst)@[m],
        forall|m: int|
            0 <= m < src@.len() ==> (#[trigger] final(dst)@[old(dst)@.len() + m]).0 == (src@[m].0
                + off) as u64 && final(dst)@[old(dst)@.len() + m].1@ == src@[m].1@.map_values(
                |t: u64| (t + off) as u64,
            ),
{
    let base = dst.len();
    let mut i: usize = 0;
    while i < src.len()
        invariant
            0 <= i <= src@.len(),
            dst@.len() == base + i,
            base == old(dst)@.len(),
            forall|m: int| 0 <= m < base ==> #[trigger] dst@[m] == old(dst)@[m],
            forall|m: int|
                0 <= m < i ==> (#[trigger] dst@[base + m]).0 == (src@[m].0 + off) as u64 && dst@[
                    base + m
                ].1@ == src@[m].1@.map_values(|t: u64| (t + off) as u64),
        decreases src@.len() - i,
    {
        proof {
            assert((src@[i as int].0 as int) + (off as int) <= u64::MAX);
        }
        let shifted = copy_shifted(&src[i].1, off);
        dst.push(((src[i].0 + off), shifted));
        i = i + 1;
    }
}

/// A sequence of state identifiers with `off` added to each.
pub open spec fn shift_seq(ts: Seq<u64>, off: u64) -> Seq<u64> {
    ts.map_values(|t: u64| (t + off) as u64)
}

impl Nfa {
    /// The concatenation automaton: `left` and `right` side by side, with the
    /// states of `right` renumbered past those of `left`, an epsilon edge from
    /// every accepting state of `left` to the start of `right`, the start of
    /// `left` as start and the accepting states of `right` as accepting.
    ///
    /// Operands must carry densely numbered states, as `relabel_states`
    /// produces; the offset renumbering keeps their state spaces disjoint.
    pub fn concatenation(left: &Nfa, right: &Nfa) -> (r: Nfa)
        requires
            left.wf(),
            right.wf(),
            forall|m: int| 0 <= m < left.states@.len() ==> #[trigger] left.states@[m] == m as u64,
            forall|m: int|
                0 <= m < right.states@.len() ==> #[trigger] right.states@[m] == m as u64,
            left.alphabet@.to_set() == right.alphabet@.to_set(),
            left.states@.len() + right.states@.len() <= usize::MAX,
        ensures
            r.wf(),
            r.alphabet@ == left.alphabet@,
            r.states@.len() == left.states@.len() + right.states@.len(),
            forall|m: int| 0 <= m < r.states@.len() ==> #[trigger] r.states@[m] == m as u64,
            r.start_state == left.start_state,
            forall|s: u64, c: u64|
                (s as int) < left.states@.len() ==> #[trigger] r.step_targets(s, c)
                    == left.step_targets(s, c),
            forall|s: u64, c: u64|
                left.states@.len() <= (s as int) < r.states@.len() ==> #[trigger] r.step_targets(
                    s,
                    c,
                ) == shift_seq(
                    right.step_targets((s - left.states@.len() as u64) as u64, c),
                    left.states@.len() as u64,
                ),
            forall|s: u64, t: u64|
                (s as int) < left.states@.len() ==> ((#[trigger] r.eps_targets(s).contains(t))
                    <==> (left.eps_targets(s).contains(t) || (left.accepting@.contains(s) && t == (
                right.start_state + left.states@.len() as u64) as u64))),
            forall|s: u64|
                left.states@.len() <= (s as int) < r.states@.len() ==> #[trigger] r.eps_targets(s)
                    == shift_seq(
                    right.eps_targets((s - left.states@.len() as u64) as u64),
                    left.states@.len() as u64,
                ),
            forall|a: u64|
                #[trigger] r.accepting@.contains(a) <==> (left.states@.len() <= (a as int)
                    < r.states@.len() && right.accepting@.contains(
                    (a - left.states@.len() as u64) as u64,
                )),
    {
        let n1 = left.states.len();
        let n2 = right.states.len();
        let nn = n1 + n2;
        proof {
            lemma_dense_members(left.states@);
            lemma_dense_members(right.states@);
        }
        let mut states: Vec<u64> = Vec::new();
        let mut k: usize = 0;
        while k < nn
            invariant
                0 <= k <= nn,
                states@.len() == k,
                forall|m: int| 0 <= m < k ==> #[trigger] states@[m] == m as u64,
            decreases nn - k,
        {
            states.push(k as u64);
            k = k + 1;
        }
        proof {
            lemma_dense_members(states@);
        }
        let mut transitions: Vec<((u64, u64), Vec<u64>)> = Vec::new();
        let ghost lt = left.transitions@;
        let ghost rt = right.transitions@;
        extend_shifted_ntable(&mut transitions, &left.transitions, 0);
        let ghost after_left = transitions@;
        proof {
            assert forall|m: int| 0 <= m < lt.len() implies (#[trigger] after_left[m]).0
                == lt[m].0 && after_left[m].1@ == lt[m].1@ by {
                assert(after_left[0 + m].0 == (((lt[m].0.0 + 0) as u64), lt[m].0.1));
                assert(after_left[0 + m].1@ == lt[m].1@.map_values(|t: u64| (t + 0) as u64));
                assert((lt[m].0.0 + 0) as u64 == lt[m].0.0);
                assert(lt[m].1@.map_values(|t: u64| (t + 0) as u64) =~= lt[m].1@);
            }
        }
        extend_shifted_ntable(&mut transitions, &right.transitions, n1 as u64);
        proof {
            assert forall|m: int| 0 <= m < lt.len() implies (#[trigger] transitions@[m]).0
                == lt[m].0 && transitions@[m].1@ == lt[m].1@ by {
                assert(transitions@[m] == after_left[m]);
            }
            assert forall|m: int| 0 <= m < rt.len() implies (#[trigger] transitions@[lt.len()
                + m]).0 == (((rt[m].0.0 + n1 as u64) as u64), rt[m].0.1) && transitions@[lt.len()
                + m].1@ == rt[m].1@.map_values(|t: u64| (t + n1 as u64) as u64) by {
                assert(transitions@[after_left.len() + m].0 == (
                    ((rt[m].0.0 + n1 as u64) as u64),
                    rt[m].0.1,
                ));
                assert(transitions@[after_left.len() + m].1@ == rt[m].1@.map_values(
                    |t: u64| (t + n1 as u64) as u64,
                ));
            }
            assert forall|m1: int, m2: int| 0 <= m1 < m2 < transitions@.len() implies (
            #[trigger] transitions@[m1]).0 != (#[trigger] transitions@[m2]).0 by {
                if m2 < lt.len() {
                    assert(lt[m1].0 != lt[m2].0);
                } else if m1 >= lt.len() {
                    let q1 = m1 - lt.len();
                    let q2 = m2 - lt.len();
                    assert(rt[q1].0 != rt[q2].0);
                    assert(right.states@.contains(rt[q1].0.0));
                    assert(right.states@.contains(rt[q2].0.0));
                    assert(transitions@[lt.len() + q1].0.0 == (rt[q1].0.0 + n1 as u64) as u64);
                    assert(transitions@[lt.len() + q2].0.0 == (rt[q2].0.0 + n1 as u64) as u64);
                } else {
                    assert(left.states@.contains(lt[m1].0.0));
                    assert(right.states@.contains(rt[(m2 - lt.len()) as int].0.0));
                    assert(transitions@[lt.len() + (m2 - lt.len())].0.0 == (rt[(m2 - lt.len())
                        as int].0.0 + n1 as u64) as u64);
                    assert((transitions@[m1].0.0 as int) < n1);
                    assert((transitions@[m2].0.0 as int) >= n1);
                }
            }
            assert forall|s: u64, c: u64| (s as int) < n1 implies #[trigger] ntable_at(
                transitions@,
                (s, c),
            ) == left.step_targets(s, c) by {
                if ntable_has(lt, (s, c)) {
                    let m = choose|m: int| 0 <= m < lt.len() && (#[trigger] lt[m]).0 == (s, c);
                    lemma_ntable_at(lt, (s, c), m);
                    assert(transitions@[m].0 == (s, c));
                    lemma_ntable_at(transitions@, (s, c), m);
                } else {
                    if ntable_has(transitions@, (s, c)) {
                        let m = choose|m: int|
                            0 <= m < transitions@.len() && (#[trigger] transitions@[m]).0 == (
                            s,
                            c,
                            );
                        if m < lt.len() {
                            assert(lt[m].0 == (s, c));
                            assert(false);
                        } else {
                            let q = m - lt.len();
                            assert(right.states@.contains(rt[q].0.0));
                            assert(transitions@[lt.len() + q].0.0 == (rt[q].0.0 + n1 as u64)
                                as u64);
                            assert((transitions@[m].0.0 as int) >= n1);
                            assert(false);
                        }
                    }
                }
            }
            assert forall|s: u64, c: u64| n1 <= (s as int) < nn implies #[trigger] ntable_at(
                transitions@,
                (s, c),
            ) == shift_seq(right.step_targets((s - n1 as u64) as u64, c), n1 as u64) by {
                let s0 = (s - n1 as u64) as u64;
                if ntable_has(rt, (s0, c)) {
                    let m = choose|m: int| 0 <= m < rt.len() && (#[trigger] rt[m]).0 == (s0, c);
                    lemma_ntable_at(rt, (s0, c), m);
                    assert(transitions@[lt.len() + m].0 == (s, c));
                    lemma_ntable_at(transitions@, (s, c), lt.len() + m);
                } else {
                    if ntable_has(transitions@, (s, c)) {
                        let m = choose|m: int|
                            0 <= m < transitions@.len() && (#[trigger] transitions@[m]).0 == (
                            s,
                            c,
                            );
                        if m < lt.len() {
                            assert(left.states@.contains(lt[m].0.0));
                            assert((transitions@[m].0.0 as int) < n1);
                            assert(false);
                        } else {
                            let q = m - lt.len();
                            assert(transitions@[lt.len() + q].0 == (
                                ((rt[q].0.0 + n1 as u64) as u64),
                                rt[q].0.1,
                            ));
                            assert(right.states@.contains(rt[q].0.0));
                            assert(rt[q].0.0 == s0 && rt[q].0.1 == c);
                            assert(rt[q].0 == (rt[q].0.0, rt[q].0.1));
                            assert(false);
                        }
                    }
                    assert(shift_seq(right.step_targets(s0, c), n1 as u64) =~= Seq::<u64>::empty());
                }
            }
        }
        let rstart = right.start_state + n1 as u64;
        let mut eps: Vec<(u64, Vec<u64>)> = Vec::new();
        let mut s: usize = 0;
        while s < n1
            invariant
                0 <= s <= n1,
                ekeys_distinct(eps@),
                forall|m: int| 0 <= m < eps@.len() ==> ((#[trigger] eps@[m]).0 as int) < s,
                forall|ss: u64|
                    (ss as int) < s ==> (#[trigger] etable_has(eps@, ss) <==> (etable_has(
                        left.epsilon_transitions@,
                        ss,
                    ) || left.accepting@.contains(ss))),
                forall|ss: u64, t: u64|
                    (ss as int) < s ==> ((#[trigger] etable_at(eps@, ss).contains(t)) <==> (
                    left.eps_targets(ss).contains(t) || (left.accepting@.contains(ss) && t
                        == rstart))),
            decreases n1 - s,
        {
            let su = s as u64;
            let acc = vec_contains(&left.accepting, su);
            let ghost pre = eps@;
            let entry_opt = etable_lookup(&left.epsilon_transitions, su);
            match entry_opt {
                None => {
                    if acc {
                        let mut v: Vec<u64> = Vec::new();
                        v.push(rstart);
                        proof {
                            if etable_has(pre, su) {
                                let m = choose|m: int|
                                    0 <= m < pre.len() && (#[trigger] pre[m]).0 == su;
                                assert(false);
                            }
                            lemma_etable_push(pre, (su, v));
                            assert(v@[0] == rstart);
                        }
                        eps.push((su, v));
                    }
                },
                Some(ts) => {
                    let mut v = ts;
                    if acc && !vec_contains(&v, rstart) {
                        v.push(rstart);
                    }
                    proof {
                        if etable_has(pre, su) {
                            let m = choose|m: int|
                                0 <= m < pre.len() && (#[trigger] pre[m]).0 == su;
                            assert(false);
                        }
                        lemma_etable_push(pre, (su, v));
                    }
                    eps.push((su, v));
                },
            }
            proof {
                assert forall|ss: u64| (ss as int) < s + 1 implies (#[trigger] etable_has(
                    eps@,
                    ss,
                ) <==> (etable_has(left.epsilon_transitions@, ss) || left.accepting@.contains(
                    ss,
                ))) by {
                    if (ss as int) == s {
                        if !etable_has(left.epsilon_transitions@, ss)
                            && !left.accepting@.contains(ss) {
                            if etable_has(eps@, ss) {
                                let m = choose|m: int|
                                    0 <= m < eps@.len() && (#[trigger] eps@[m]).0 == ss;
                                if m < pre.len() {
                                    assert(pre[m].0 == ss);
                                    assert(false);
                                }
                            }
                        }
                    }
                }
                assert forall|ss: u64, t: u64| (ss as int) < s + 1 implies ((
                #[trigger] etable_at(eps@, ss).contains(t)) <==> (left.eps_targets(ss).contains(t)
                    || (left.accepting@.contains(ss) && t == rstart))) by {
                    if (ss as int) < s {
                        assert(etable_at(eps@, ss) == etable_at(pre, ss));
                        assert(etable_at(pre, ss).contains(t) <==> (left.eps_targets(ss).contains(
                            t,
                        ) || (left.accepting@.contains(ss) && t == rstart)));
                    }
                    if (ss as int) == s {
                        if etable_has(left.epsilon_transitions@, ss) || left.accepting@.contains(
                            ss,
                        ) {
                            let v2 = etable_at(eps@, ss);
                            if etable_has(left.epsilon_transitions@, ss) {
                                if left.accepting@.contains(ss) {
                                    if left.eps_targets(ss).contains(rstart) {
                                        assert(v2 == left.eps_targets(ss));
                                    } else {
                                        assert(v2 =~= left.eps_targets(ss).push(rstart));
                                        assert(v2[v2.len() - 1] == rstart);
                                        assert(v2.contains(rstart));
                                        assert forall|tt: u64| v2.contains(tt) implies (
                                        left.eps_targets(ss).contains(tt) || tt == rstart) by {
                                            let j = choose|j: int|
                                                0 <= j < v2.len() && v2[j] == tt;
                                            if j < v2.len() - 1 {
                                                assert(left.eps_targets(ss)[j] == tt);
                                            }
                                        }
                                        if left.eps_targets(ss).contains(t) {
                                            let j = choose|j: int|
                                                0 <= j < left.eps_targets(ss).len()
                                                    && left.eps_targets(ss)[j] == t;
                                            assert(v2[j] == t);
                                        }
                                    }
                                } else {
                                    assert(v2 == left.eps_targets(ss));
                                }
                            } else {
                                assert(left.eps_targets(ss) =~= Seq::<u64>::empty());
                                assert(v2.len() == 1 && v2[0] == rstart);
                                assert forall|tt: u64| v2.contains(tt) implies tt == rstart by {
                                    let j = choose|j: int| 0 <= j < v2.len() && v2[j] == tt;
                                }
                            }
                        } else {
                            if etable_has(eps@, ss) {
                                let m = choose|m: int|
                                    0 <= m < eps@.len() && (#[trigger] eps@[m]).0 == ss;
                                if m < pre.len() {
                                    assert(pre[m].0 == ss);
                                }
                                assert(false);
                            }
                            assert(etable_at(eps@, ss) =~= Seq::<u64>::empty());
                            assert(left.eps_targets(ss) =~= Seq::<u64>::empty());
                        }
                    }
                }
            }
            s = s + 1;
        }
        let ghost left_eps_len = eps@.len();
        let ghost pre_right = eps@;
        extend_shifted_etable(&mut eps, &right.epsilon_transitions, n1 as u64);
        let ghost re = right.epsilon_transitions@;
        proof {
            assert forall|m1: int, m2: int| 0 <= m1 < m2 < eps@.len() implies (
            #[trigger] eps@[m1]).0 != (#[trigger] eps@[m2]).0 by {
                if m2 < left_eps_len {
                    assert(eps@[m1] == pre_right[m1] && eps@[m2] == pre_right[m2]);
                } else if m1 >= left_eps_len {
                    let q1 = m1 - left_eps_len;
                    let q2 = m2 - left_eps_len;
                    assert(re[q1].0 != re[q2].0);
                    assert(right.states@.contains(re[q1].0));
                    assert(right.states@.contains(re[q2].0));
                    assert(eps@[pre_right.len() + q1].0 == (re[q1].0 + n1 as u64) as u64);
                    assert(eps@[pre_right.len() + q2].0 == (re[q2].0 + n1 as u64) as u64);
                } else {
                    assert(eps@[m1] == pre_right[m1]);
                    assert((eps@[m1].0 as int) < n1);
                    assert(right.states@.contains(re[(m2 - left_eps_len) as int].0));
                    assert(eps@[pre_right.len() + (m2 - left_eps_len)].0 == (re[(m2
                        - left_eps_len) as int].0 + n1 as u64) as u64);
                    assert((eps@[m2].0 as int) >= n1);
                }
            }
            assert forall|ss: u64, t: u64| (ss as int) < n1 implies ((#[trigger] etable_at(
                eps@,
                ss,
            ).contains(t)) <==> (left.eps_targets(ss).contains(t) || (left.accepting@.contains(ss)
                && t == rstart))) by {
                if etable_has(pre_right, ss) {
                    let m = choose|m: int|
                        0 <= m < pre_right.len() && (#[trigger] pre_right[m]).0 == ss;
                    lemma_etable_at(pre_right, ss, m);
                    assert(eps@[m].0 == ss && eps@[m].1 == pre_right[m].1);
                    lemma_etable_at(eps@, ss, m);
                } else {
                    assert(!(etable_has(left.epsilon_transitions@, ss)
                        || left.accepting@.contains(ss)));
                    assert(left.eps_targets(ss) =~= Seq::<u64>::empty());
                    if etable_has(eps@, ss) {
                        let m = choose|m: int| 0 <= m < eps@.len() && (#[trigger] eps@[m]).0 == ss;
                        if m < left_eps_len {
                            assert(pre_right[m].0 == ss);
                            assert(false);
                        } else {
                            let q = m - left_eps_len;
                            assert(right.states@.contains(re[q].0));
                            assert(eps@[pre_right.len() + q].0 == (re[q].0 + n1 as u64) as u64);
                            assert((eps@[m].0 as int) >= n1);
                            assert(false);
                        }
                    }
                    assert(etable_at(eps@, ss) =~= Seq::<u64>::empty());
                }
            }
            assert forall|ss: u64| n1 <= (ss as int) < nn implies #[trigger] etable_at(eps@, ss)
                == shift_seq(right.eps_targets((ss - n1 as u64) as u64), n1 as u64) by {
                let s0 = (ss - n1 as u64) as u64;
                if etable_has(re, s0) {
                    let m = choose|m: int| 0 <= m < re.len() && (#[trigger] re[m]).0 == s0;
                    lemma_etable_at(re, s0, m);
                    assert(eps@[left_eps_len + m].0 == ss);
                    assert(eps@[left_eps_len + m].1@ == re[m].1@.map_values(
                        |t: u64| (t + n1 as u64) as u64,
                    ));
                    lemma_etable_at(eps@, ss, left_eps_len + m);
                } else {
                    if etable_has(eps@, ss) {
                        let m = choose|m: int| 0 <= m < eps@.len() && (#[trigger] eps@[m]).0 == ss;
                        if m < left_eps_len {
                            assert(pre_right[m].0 == ss);
                            assert((pre_right[m].0 as int) < n1);
                            assert(false);
                        } else {
                            let q = m - left_eps_len;
                            assert(eps@[pre_right.len() + q].0 == (re[q].0 + n1 as u64) as u64);
                            assert(right.states@.contains(re[q].0));
                            assert(re[q].0 == s0);
                            assert(false);
                        }
                    }
                    assert(shift_seq(right.eps_targets(s0), n1 as u64) =~= Seq::<u64>::empty());
                }
            }
        }
        proof {
            assert forall|j: int| 0 <= j < right.accepting@.len() implies (
            #[trigger] right.accepting@[j] as int) + (n1 as u64 as int) <= u64::MAX by {
                assert(right.accepting@.contains(right.accepting@[j]));
                assert(right.states@.contains(right.accepting@[j]));
            }
        }
        let accepting = copy_shifted(&right.accepting, n1 as u64);
        proof {
            assert forall|a: u64| #[trigger] accepting@.contains(a) implies (n1 <= (a as int) < nn
                && right.accepting@.contains((a - n1 as u64) as u64)) by {
                let j = choose|j: int| 0 <= j < accepting@.len() && accepting@[j] == a;
                assert(accepting@[j] == (right.accepting@[j] + n1 as u64) as u64);
                assert(right.accepting@.contains(right.accepting@[j]));
                assert(right.states@.contains(right.accepting@[j]));
            }
            assert forall|a: u64|
                n1 <= (a as int) < nn && right.accepting@.contains((a - n1 as u64) as u64)
                    implies #[trigger] accepting@.contains(a) by {
                let j = choose|j: int|
                    0 <= j < right.accepting@.len() && right.accepting@[j] == (a - n1 as u64)
                        as u64;
                assert(accepting@[j] == a);
            }
            assert forall|m1: int, m2: int| 0 <= m1 < m2 < accepting@.len() implies accepting@[m1]
                != accepting@[m2] by {
                assert(right.accepting@[m1] != right.accepting@[m2]);
                assert(right.accepting@.contains(right.accepting@[m1]));
                assert(right.accepting@.contains(right.accepting@[m2]));
                assert(right.states@.contains(right.accepting@[m1]));
                assert(right.states@.contains(right.accepting@[m2]));
            }
            assert(accepting@.no_duplicates());
        }
        let r = Nfa {
            states,
            alphabet: crate::table::copy_values(&left.alphabet),
            start_state: left.start_state,
            transitions,
            epsilon_transitions: eps,
            accepting,
        };
        proof {
            assert(left.states@.contains(left.start_state));
            assert((left.start_state as int) < n1);
            assert(r.states@.contains(r.start_state));
            assert forall|m: int| 0 <= m < r.transitions@.len() implies r.states@.contains(
                (#[trigger] r.transitions@[m]).0.0,
            ) && r.alphabet@.contains(r.transitions@[m].0.1) && (forall|j: int|
                0 <= j < r.transitions@[m].1@.len() ==> r.states@.contains(
                    #[trigger] r.transitions@[m].1@[j],
                )) by {
                if m < lt.len() {
                    assert(left.states@.contains(lt[m].0.0));
                    assert(r.transitions@[m].0 == lt[m].0 && r.transitions@[m].1@ == lt[m].1@);
                    assert forall|j: int| 0 <= j < r.transitions@[m].1@.len()
                        implies r.states@.contains(#[trigger] r.transitions@[m].1@[j]) by {
                        assert(left.states@.contains(lt[m].1@[j]));
                    }
                } else {
                    let q = m - lt.len();
                    assert(r.transitions@[lt.len() + q].0 == (
                        ((rt[q].0.0 + n1 as u64) as u64),
                        rt[q].0.1,
                    ));
                    assert(r.transitions@[lt.len() + q].1@ == rt[q].1@.map_values(
                        |t: u64| (t + n1 as u64) as u64,
                    ));
                    assert(right.states@.contains(rt[q].0.0));
                    assert(right.alphabet@.contains(rt[q].0.1));
                    assert(right.alphabet@.to_set().contains(rt[q].0.1));
                    assert(r.alphabet@.contains(rt[q].0.1));
                    assert forall|j: int| 0 <= j < r.transitions@[m].1@.len()
                        implies r.states@.contains(#[trigger] r.transitions@[m].1@[j]) by {
                        assert(r.transitions@[m].1@.len() == rt[q].1@.len());
                        assert(r.transitions@[m].1@[j] == (rt[q].1@[j] + n1 as u64) as u64);
                        assert(right.states@.contains(rt[q].1@[j]));
                    }
                }
            }
            assert forall|m: int| 0 <= m < r.epsilon_transitions@.len()
                implies r.states@.contains((#[trigger] r.epsilon_transitions@[m]).0) && (forall|
                j: int,
            |
                0 <= j < r.epsilon_transitions@[m].1@.len() ==> r.states@.contains(
                    #[trigger] r.epsilon_transitions@[m].1@[j],
                )) by {
                let key = r.epsilon_transitions@[m].0;
                if m < left_eps_len {
                    assert(r.epsilon_transitions@[m] == pre_right[m]);
                    assert((pre_right[m].0 as int) < n1);
                    assert((key as int) < n1);
                } else {
                    let q = m - left_eps_len;
                    assert(r.epsilon_transitions@[pre_right.len() + q].0 == (re[q].0 + n1 as u64)
                        as u64);
                    assert(right.states@.contains(re[q].0));
                    assert((key as int) < nn);
                }
                assert(r.states@.contains(key));
                lemma_etable_at(r.epsilon_transitions@, key, m);
                assert forall|j: int| 0 <= j < r.epsilon_transitions@[m].1@.len()
                    implies r.states@.contains(#[trigger] r.epsilon_transitions@[m].1@[j]) by {
                    let t = r.epsilon_transitions@[m].1@[j];
                    assert(etable_at(r.epsilon_transitions@, key).contains(t));
                    if (key as int) < n1 {
                        if left.eps_targets(key).contains(t) {
                            let jj = choose|jj: int|
                                0 <= jj < left.eps_targets(key).len() && left.eps_targets(
                                    key,
                                )[jj] == t;
                            left.lemma_eps_targets_in_states(key);
                            assert(left.states@.contains(t));
                        } else {
                            assert(t == rstart);
                            assert(right.states@.contains(right.start_state));
                        }
                        assert((t as int) < nn);
                    } else {
                        let s0 = (key - n1 as u64) as u64;
                        assert(etable_at(r.epsilon_transitions@, key) == shift_seq(
                            right.eps_targets(s0),
                            n1 as u64,
                        ));
                        assert(t == (right.eps_targets(s0)[j] + n1 as u64) as u64);
                        right.lemma_eps_targets_in_states(s0);
                        assert(right.states@.contains(right.eps_targets(s0)[j]));
                        assert((t as int) < nn);
                    }
                    assert(r.states@.contains(t));
                }
            }
            assert forall|a: u64| #[trigger] r.accepting@.contains(a) implies r.states@.contains(
                a,
            ) by {
                assert((a as int) < nn);
            }
            assert(r.wf());
        }
        r
    }
}

/// The lookup of `(s, c)` in `t` agrees with the `off`-shifted lookup in `src`.
pub open spec fn seg_at_ok(
    t: Seq<((u64, u64), Vec<u64>)>,
    src: Seq<((u64, u64), Vec<u64>)>,
    off: u64,
    key: (u64, u64),
) -> bool {
    ntable_at(t, key) == shift_seq(ntable_at(src, (((key.0 - off) as u64), key.1)), off)
        && (ntable_has(t, key) <==> ntable_has(src, (((key.0 - off) as u64), key.1)))
}

/// Looking a key up in the shifted copy of a table segment gives the shifted
/// targets of the source table.
pub proof fn lemma_ntable_segment(
    t: Seq<((u64, u64), Vec<u64>)>,
    src: Seq<((u64, u64), Vec<u64>)>,
    base: int,
    off: u64,
    bound: u64,
)
    requires
        nkeys_distinct(t),
        nkeys_distinct(src),
        0 <= base,
        base + src.len() <= t.len(),
        (off as int) + (bound as int) <= u64::MAX,
        forall|m: int| 0 <= m < src.len() ==> ((#[trigger] src[m]).0.0 as int) < bound,
        forall|m: int|
            0 <= m < src.len() ==> (#[trigger] t[base + m]).0 == (((src[m].0.0 + off) as u64),
            src[m].0.1) && t[base + m].1@ == shift_seq(src[m].1@, off),
        forall|m: int|
            (0 <= m < base || base + src.len() <= m < t.len()) ==> !((off as int) <= ((
            #[trigger] t[m]).0.0 as int) < (off as int) + (bound as int)),
    ensures
        forall|s: u64, c: u64|
            (off as int) <= (s as int) < (off as int) + (bound as int) ==> #[trigger] seg_at_ok(
                t,
                src,
                off,
                (s, c),
            ),
{
    assert forall|s: u64, c: u64|
        (off as int) <= (s as int) < (off as int) + (bound as int) implies #[trigger] seg_at_ok(
        t,
        src,
        off,
        (s, c),
    ) by {
        let s0 = (s - off) as u64;
        if ntable_has(src, (s0, c)) {
            let m = choose|m: int| 0 <= m < src.len() && (#[trigger] src[m]).0 == (s0, c);
            lemma_ntable_at(src, (s0, c), m);
            assert(t[base + m].0 == (s, c));
            lemma_ntable_at(t, (s, c), base + m);
        } else {
            if ntable_has(t, (s, c)) {
                let m = choose|m: int| 0 <= m < t.len() && (#[trigger] t[m]).0 == (s, c);
                if base <= m < base + src.len() {
                    let q = m - base;
                    assert(t[base + q].0 == (((src[q].0.0 + off) as u64), src[q].0.1));
                    assert(src[q].0.0 == s0 && src[q].0.1 == c);
                    assert(src[q].0 == (src[q].0.0, src[q].0.1));
                    assert(false);
                } else {
                    assert(!((off as int) <= ((t[m]).0.0 as int) < (off as int) + (bound as int)));
                    assert(false);
                }
            }
            assert(shift_seq(ntable_at(src, (s0, c)), off) =~= Seq::<u64>::empty());
            assert(!ntable_has(t, (s, c)) && !ntable_has(src, (s0, c)));
            assert(ntable_at(t, (s, c)) =~= Seq::<u64>::empty());
        }
        assert(ntable_at(t, (s, c)) =~= shift_seq(ntable_at(src, (s0, c)), off));
    }
}

/// The lookup of `ss` in `t` agrees with the `off`-shifted lookup in `src`.
pub open spec fn eseg_at_ok(t: Seq<(u64, Vec<u64>)>, src: Seq<(u64, Vec<u64>)>, off: u64, ss: u64) -> bool {
    etable_at(t, ss) == shift_seq(etable_at(src, (ss - off) as u64), off) && (etable_has(t, ss)
        <==> etable_has(src, (ss - off) as u64))
}

/// Looking a state up in the shifted copy of an epsilon-table segment gives
/// the shifted targets of the source table.
pub proof fn lemma_etable_segment(
    t: Seq<(u64, Vec<u64>)>,
    src: Seq<(u64, Vec<u64>)>,
    base: int,
    off: u64,
    bound: u64,
)
    requires
        ekeys_distinct(t),
        ekeys_distinct(src),
        0 <= base,
        base + src.len() <= t.len(),
        (off as int) + (bound as int) <= u64::MAX,
        forall|m: int| 0 <= m < src.len() ==> ((#[trigger] src[m]).0 as int) < bound,
        forall|m: int|
            0 <= m < src.len() ==> ((#[trigger] t[base + m]).0 == (src[m].0 + off) as u64) && t[
                base + m
            ].1@ == shift_seq(src[m].1@, off),
        forall|m: int|
            (0 <= m < base || base + src.len() <= m < t.len()) ==> !((off as int) <= ((
            #[trigger] t[m]).0 as int) < (off as int) + (bound as int)),
    ensures
        forall|ss: u64|
            (off as int) <= (ss as int) < (off as int) + (bound as int) ==> #[trigger] eseg_at_ok(
                t,
                src,
                off,
                ss,
            ),
{
    assert forall|ss: u64|
        (off as int) <= (ss as int) < (off as int) + (bound as int) implies #[trigger] eseg_at_ok(
        t,
        src,
        off,
        ss,
    ) by {
        let s0 = (ss - off) as u64;
        if etable_has(src, s0) {
            let m = choose|m: int| 0 <= m < src.len() && (#[trigger] src[m]).0 == s0;
            lemma_etable_at(src, s0, m);
            assert(t[base + m].0 == ss);
            lemma_etable_at(t, ss, base + m);
        } else {
            if etable_has(t, ss) {
                let m = choose|m: int| 0 <= m < t.len() && (#[trigger] t[m]).0 == ss;
                if base <= m < base + src.len() {
                    let q = m - base;
                    assert(t[base + q].0 == (src[q].0 + off) as u64);
                    assert(src[q].0 == s0);
                    assert(false);
                } else {
                    assert(!((off as int) <= ((t[m]).0 as int) < (off as int) + (bound as int)));
                    assert(false);
                }
            }
            assert(shift_seq(etable_at(src, s0), off) =~= Seq::<u64>::empty());
            assert(etable_at(t, ss) =~= Seq::<u64>::empty());
            assert(etable_at(t, ss) =~= shift_seq(etable_at(src, s0), off));
        }
    }
}

/// Append to `dst` the epsilon entries for a copy of `src` whose states are
/// shifted by `off`, with an extra epsilon edge to `extra` out of every
/// accepting state of `src`.
fn build_linked_etable(dst: &mut Vec<(u64, Vec<u64>)>, src: &Nfa, off: u64, extra: u64)
    requires
        src.wf(),
        forall|m: int| 0 <= m < src.states@.len() ==> #[trigger] src.states@[m] == m as u64,
        (off as int) + src.states@.len() <= u64::MAX,
        ekeys_distinct(old(dst)@),
        forall|m: int|
            0 <= m < old(dst)@.len() ==> !((off as int) <= ((#[trigger] old(dst)@[m]).0 as int) < (
            off as int) + src.states@.len()),
    ensures
        ekeys_distinct(final(dst)@),
        final(dst)@.len() >= old(dst)@.len(),
        forall|m: int| 0 <= m < old(dst)@.len() ==> #[trigger] final(dst)@[m] == old(dst)@[m],
        forall|m: int|
            old(dst)@.len() <= m < final(dst)@.len() ==> (off as int) <= ((
            #[trigger] final(dst)@[m]).0 as int) < (off as int) + src.states@.len(),
        forall|ss: u64|
            (off as int) <= (ss as int) < (off as int) + src.states@.len() ==> (
            #[trigger] etable_has(final(dst)@, ss) <==> (etable_has(
                src.epsilon_transitions@,
                (ss - off) as u64,
            ) || src.accepting@.contains((ss - off) as u64))),
        forall|ss: u64, t: u64|
            (off as int) <= (ss as int) < (off as int) + src.states@.len() ==> ((
            #[trigger] etable_at(final(dst)@, ss).contains(t)) <==> (shift_seq(
                src.eps_targets((ss - off) as u64),
                off,
            ).contains(t) || (src.accepting@.contains((ss - off) as u64) && t == extra))),
        forall|ss: u64|
            ((ss as int) < off || (ss as int) >= (off as int) + src.states@.len()) ==> (
            #[trigger] etable_has(final(dst)@, ss) == etable_has(old(dst)@, ss) && etable_at(
                final(dst)@,
                ss,
            ) == etable_at(old(dst)@, ss)),
{
    let n = src.states.len();
    let ghost base = dst@;
    proof {
        lemma_dense_members(src.states@);
    }
    let mut s: usize = 0;
    while s < n
        invariant
            0 <= s <= n,
            ekeys_distinct(dst@),
            dst@.len() >= base.len(),
            forall|m: int| 0 <= m < base.len() ==> #[trigger] dst@[m] == base[m],
            forall|m: int|
                base.len() <= m < dst@.len() ==> (off as int) <= ((#[trigger] dst@[m]).0 as int)
                    < (off as int) + s,
            forall|ss: u64|
                (off as int) <= (ss as int) < (off as int) + s ==> (#[trigger] etable_has(
                    dst@,
                    ss,
                ) <==> (etable_has(src.epsilon_transitions@, (ss - off) as u64)
                    || src.accepting@.contains((ss - off) as u64))),
            forall|ss: u64, t: u64|
                (off as int) <= (ss as int) < (off as int) + s ==> ((#[trigger] etable_at(
                    dst@,
                    ss,
                ).contains(t)) <==> (shift_seq(src.eps_targets((ss - off) as u64), off).contains(
                    t,
                ) || (src.accepting@.contains((ss - off) as u64) && t == extra))),
        decreases n - s,
    {
        let su = s as u64;
        let key = su + off;
        let acc = vec_contains(&src.accepting, su);
        let ghost pre = dst@;
        let entry_opt = etable_lookup(&src.epsilon_transitions, su);
        proof {
            src.lemma_eps_targets_in_states(su);
            if etable_has(pre, key) {
                let m = choose|m: int| 0 <= m < pre.len() && (#[trigger] pre[m]).0 == key;
                if m < base.len() {
                    assert(pre[m] == base[m]);
                }
                assert(false);
            }
        }
        match entry_opt {
            None => {
                if acc {
                    let mut v: Vec<u64> = Vec::new();
                    v.push(extra);
                    proof {
                        lemma_etable_push(pre, (key, v));
                        assert(v@[0] == extra);
                    }
                    dst.push((key, v));
                }
            },
            Some(ts) => {
                proof {
                    assert forall|j: int| 0 <= j < ts@.len() implies (#[trigger] ts@[j] as int) + (
                    off as int) <= u64::MAX by {
                        assert(src.states@.contains(src.eps_targets(su)[j]));
                    }
                }
                let mut v = copy_shifted(&ts, off);
                if acc && !vec_contains(&v, extra) {
                    v.push(extra);
                }
                proof {
                    lemma_etable_push(pre, (key, v));
                }
                dst.push((key, v));
            },
        }
        proof {
            assert forall|ss: u64| (off as int) <= (ss as int) < (off as int) + s + 1 implies (
            #[trigger] etable_has(dst@, ss) <==> (etable_has(
                src.epsilon_transitions@,
                (ss - off) as u64,
            ) || src.accepting@.contains((ss - off) as u64))) by {
                if (ss as int) < (off as int) + s {
                    assert(etable_has(dst@, ss) == etable_has(pre, ss));
                } else {
                    assert(ss == key);
                    if !etable_has(src.epsilon_transitions@, su) && !src.accepting@.contains(su) {
                        if etable_has(dst@, ss) {
                            let m = choose|m: int|
                                0 <= m < dst@.len() && (#[trigger] dst@[m]).0 == ss;
                            if m < pre.len() {
                                assert(pre[m].0 == ss);
                                if m < base.len() {
                                    assert(pre[m] == base[m]);
                                }
                            }
                            assert(false);
                        }
                    }
                }
            }
            assert forall|ss: u64, t: u64|
                (off as int) <= (ss as int) < (off as int) + s + 1 implies ((
            #[trigger] etable_at(dst@, ss).contains(t)) <==> (shift_seq(
                src.eps_targets((ss - off) as u64),
                off,
            ).contains(t) || (src.accepting@.contains((ss - off) as u64) && t == extra))) by {
                if (ss as int) < (off as int) + s {
                    assert(etable_at(dst@, ss) == etable_at(pre, ss));
                    assert(etable_at(pre, ss).contains(t) <==> (shift_seq(
                        src.eps_targets((ss - off) as u64),
                        off,
                    ).contains(t) || (src.accepting@.contains((ss - off) as u64) && t == extra)));
                } else {
                    assert(ss == key);
                    let shifted = shift_seq(src.eps_targets(su), off);
                    if etable_has(src.epsilon_transitions@, su) || src.accepting@.contains(su) {
                        let v2 = etable_at(dst@, ss);
                        if etable_has(src.epsilon_transitions@, su) {
                            if src.accepting@.contains(su) {
                                if shifted.contains(extra) {
                                    assert(v2 == shifted);
                                } else {
                                    assert(v2 =~= shifted.push(extra));
                                    assert(v2[v2.len() - 1] == extra);
                                    assert(v2.contains(extra));
                                    assert forall|tt: u64| v2.contains(tt) implies (
                                    shifted.contains(tt) || tt == extra) by {
                                        let j = choose|j: int| 0 <= j < v2.len() && v2[j] == tt;
                                        if j < v2.len() - 1 {
                                            assert(shifted[j] == tt);
                                        }
                                    }
                                    if shifted.contains(t) {
                                        let j = choose|j: int|
                                            0 <= j < shifted.len() && shifted[j] == t;
                                        assert(v2[j] == t);
                                    }
                                }
                            } else {
                                assert(v2 == shifted);
                            }
                        } else {
                            assert(src.eps_targets(su) =~= Seq::<u64>::empty());
                            assert(shifted =~= Seq::<u64>::empty());
                            assert(v2.len() == 1 && v2[0] == extra);
                            assert forall|tt: u64| v2.contains(tt) implies tt == extra by {
                                let j = choose|j: int| 0 <= j < v2.len() && v2[j] == tt;
                            }
                        }
                    } else {
                        if etable_has(dst@, ss) {
                            let m = choose|m: int|
                                0 <= m < dst@.len() && (#[trigger] dst@[m]).0 == ss;
                            if m < pre.len() {
                                assert(pre[m].0 == ss);
                                if m < base.len() {
                                    assert(pre[m] == base[m]);
                                }
                            }
                            assert(false);
                        }
                        assert(etable_at(dst@, ss) =~= Seq::<u64>::empty());
                        assert(src.eps_targets(su) =~= Seq::<u64>::empty());
                        assert(shifted =~= Seq::<u64>::empty());
                    }
                }
            }
        }
        s = s + 1;
    }
    proof {
        assert forall|ss: u64|
            ((ss as int) < off || (ss as int) >= (off as int) + src.states@.len()) implies (
        #[trigger] etable_has(dst@, ss) == etable_has(base, ss) && etable_at(dst@, ss)
            == etable_at(base, ss)) by {
            if etable_has(base, ss) {
                let m = choose|m: int| 0 <= m < base.len() && (#[trigger] base[m]).0 == ss;
                lemma_etable_at(base, ss, m);
                assert(dst@[m] == base[m]);
                lemma_etable_at(dst@, ss, m);
            } else {
                if etable_has(dst@, ss) {
                    let m = choose|m: int| 0 <= m < dst@.len() && (#[trigger] dst@[m]).0 == ss;
                    if m < base.len() {
                        assert(dst@[m] == base[m]);
                        assert(base[m].0 == ss);
                        assert(false);
                    } else {
                        assert(false);
                    }
                }
            }
        }
    }
}

impl Nfa {
    /// The union automaton: a fresh start state numbered 0 with epsilon edges
    /// to the (renumbered) starts of `first` and `second`, whose states are
    /// shifted to `1..1+n1` and `1+n1..1+n1+n2`; accepting states are those
    /// of either operand, renumbered.
    ///
    /// Operands must carry densely numbered states, as `relabel_states`
    /// produces; the offset renumbering keeps their state spaces disjoint.
    pub fn union(first: &Nfa, second: &Nfa) -> (r: Nfa)
        requires
            first.wf(),
            second.wf(),
            forall|m: int| 0 <= m < first.states@.len() ==> #[trigger] first.states@[m] == m as u64,
            forall|m: int|
                0 <= m < second.states@.len() ==> #[trigger] second.states@[m] == m as u64,
            first.alphabet@.to_set() == second.alphabet@.to_set(),
            1 + first.states@.len() + second.states@.len() <= usize::MAX,
        ensures
            r.wf(),
            r.alphabet@ == first.alphabet@,
            r.states@.len() == 1 + first.states@.len() + second.states@.len(),
            forall|m: int| 0 <= m < r.states@.len() ==> #[trigger] r.states@[m] == m as u64,
            r.start_state == 0u64,
            forall|c: u64| #[trigger] r.step_targets(0u64, c) == Seq::<u64>::empty(),
            forall|s: u64, c: u64|
                1 <= (s as int) < 1 + first.states@.len() ==> #[trigger] r.step_targets(s, c)
                    == shift_seq(first.step_targets((s - 1) as u64, c), 1u64),
            forall|s: u64, c: u64|
                1 + first.states@.len() <= (s as int) < r.states@.len()
                    ==> #[trigger] r.step_targets(s, c) == shift_seq(
                    second.step_targets((s - (1 + first.states@.len() as u64)) as u64, c),
                    (1 + first.states@.len() as u64) as u64,
                ),
            r.eps_targets(0u64) == seq![
                (first.start_state + 1) as u64,
                (second.start_state + 1 + first.states@.len() as u64) as u64,
            ],
            forall|s: u64|
                1 <= (s as int) < 1 + first.states@.len() ==> #[trigger] r.eps_targets(s)
                    == shift_seq(first.eps_targets((s - 1) as u64), 1u64),
            forall|s: u64|
                1 + first.states@.len() <= (s as int) < r.states@.len() ==> #[trigger] r.eps_targets(
                    s,
                ) == shift_seq(
                    second.eps_targets((s - (1 + first.states@.len() as u64)) as u64),
                    (1 + first.states@.len() as u64) as u64,
                ),
            forall|a: u64|
                #[trigger] r.accepting@.contains(a) <==> ((1 <= (a as int) < 1
                    + first.states@.len() && first.accepting@.contains((a - 1) as u64)) || (1
                    + first.states@.len() <= (a as int) < 1 + first.states@.len()
                    + second.states@.len() && second.accepting@.contains(
                    (a - (1 + first.states@.len() as u64)) as u64,
                ))),
    {
        let n1 = first.states.len();
        let n2 = second.states.len();
        let nn = 1 + n1 + n2;
        let off2 = 1 + n1 as u64;
        proof {
            lemma_dense_members(first.states@);
            lemma_dense_members(second.states@);
        }
        let mut states: Vec<u64> = Vec::new();
        let mut k: usize = 0;
        while k < nn
            invariant
                0 <= k <= nn,
                states@.len() == k,
                forall|m: int| 0 <= m < k ==> #[trigger] states@[m] == m as u64,
            decreases nn - k,
        {
            states.push(k as u64);
            k = k + 1;
        }
        proof {
            lemma_dense_members(states@);
        }
        let ghost ft = first.transitions@;
        let ghost st = second.transitions@;
        let mut transitions: Vec<((u64, u64), Vec<u64>)> = Vec::new();
        extend_shifted_ntable(&mut transitions, &first.transitions, 1u64);
        let ghost after_first = transitions@;
        extend_shifted_ntable(&mut transitions, &second.transitions, off2);
        proof {
            assert forall|m: int| 0 <= m < ft.len() implies (#[trigger] transitions@[m]).0 == (
                ((ft[m].0.0 + 1) as u64),
                ft[m].0.1,
            ) && transitions@[m].1@ == shift_seq(ft[m].1@, 1u64) by {
                assert(after_first[0 + m].0 == (((ft[m].0.0 + 1) as u64), ft[m].0.1));
                assert(after_first[0 + m].1@ == ft[m].1@.map_values(|t: u64| (t + 1) as u64));
                assert(transitions@[m] == after_first[m]);
            }
            assert forall|m: int| 0 <= m < st.len() implies (#[trigger] transitions@[ft.len()
                + m]).0 == (((st[m].0.0 + off2) as u64), st[m].0.1) && transitions@[ft.len()
                + m].1@ == shift_seq(st[m].1@, off2) by {
                assert(transitions@[after_first.len() + m].0 == (
                    ((st[m].0.0 + off2) as u64),
                    st[m].0.1,
                ));
                assert(transitions@[after_first.len() + m].1@ == st[m].1@.map_values(
                    |t: u64| (t + off2) as u64,
                ));
            }
            assert forall|m1: int, m2: int| 0 <= m1 < m2 < transitions@.len() implies (
            #[trigger] transitions@[m1]).0 != (#[trigger] transitions@[m2]).0 by {
                if m2 < ft.len() {
                    assert(ft[m1].0 != ft[m2].0);
                    assert(ft[m1].0 == (ft[m1].0.0, ft[m1].0.1));
                    assert(ft[m2].0 == (ft[m2].0.0, ft[m2].0.1));
                    assert(first.states@.contains(ft[m1].0.0));
                    assert(first.states@.contains(ft[m2].0.0));
                } else if m1 >= ft.len() {
                    let q1 = m1 - ft.len();
                    let q2 = m2 - ft.len();
                    assert(st[q1].0 != st[q2].0);
                    assert(st[q1].0 == (st[q1].0.0, st[q1].0.1));
                    assert(st[q2].0 == (st[q2].0.0, st[q2].0.1));
                    assert(second.states@.contains(st[q1].0.0));
                    assert(second.states@.contains(st[q2].0.0));
                    assert(transitions@[ft.len() + q1].0 == (
                        ((st[q1].0.0 + off2) as u64),
                        st[q1].0.1,
                    ));
                    assert(transitions@[ft.len() + q2].0 == (
                        ((st[q2].0.0 + off2) as u64),
                        st[q2].0.1,
                    ));
                } else {
                    let q2 = m2 - ft.len();
                    assert(first.states@.contains(ft[m1].0.0));
                    assert(second.states@.contains(st[q2].0.0));
                    assert(transitions@[ft.len() + q2].0 == (
                        ((st[q2].0.0 + off2) as u64),
                        st[q2].0.1,
                    ));
                    assert((transitions@[m1].0.0 as int) < 1 + n1);
                    assert((transitions@[m2].0.0 as int) >= 1 + n1);
                }
            }
            assert forall|m: int| 0 <= m < ft.len() implies ((#[trigger] ft[m]).0.0 as int)
                < n1 by {
                assert(first.states@.contains(ft[m].0.0));
            }
            assert forall|m: int| 0 <= m < st.len() implies ((#[trigger] st[m]).0.0 as int)
                < n2 by {
                assert(second.states@.contains(st[m].0.0));
            }
            assert forall|m: int| (0 <= m < 0 || 0 + ft.len() <= m < transitions@.len())
                implies !((1 as int) <= ((#[trigger] transitions@[m]).0.0 as int) < (1 as int) + (
            n1 as int)) by {
                if m >= ft.len() {
                    let q = m - ft.len();
                    assert(second.states@.contains(st[q].0.0));
                    assert(transitions@[ft.len() + q].0.0 == (st[q].0.0 + off2) as u64);
                }
            }
            assert forall|m: int| (0 <= m < ft.len() || transitions@.len() <= m
                < transitions@.len()) implies !((off2 as int) <= ((
            #[trigger] transitions@[m]).0.0 as int) < (off2 as int) + (n2 as int)) by {
                if m < ft.len() {
                    assert(first.states@.contains(ft[m].0.0));
                    assert(transitions@[m].0.0 == (ft[m].0.0 + 1) as u64);
                }
            }
            lemma_ntable_segment(transitions@, ft, 0, 1u64, n1 as u64);
            lemma_ntable_segment(transitions@, st, ft.len() as int, off2, n2 as u64);
        }
        let mut eps: Vec<(u64, Vec<u64>)> = Vec::new();
        let mut starts: Vec<u64> = Vec::new();
        starts.push(first.start_state + 1);
        starts.push(second.start_state + off2);
        eps.push((0u64, starts));
        let ghost eps0 = eps@;
        proof {
            assert(first.states@.contains(first.start_state));
            assert(second.states@.contains(second.start_state));
            assert(eps0.len() == 1 && eps0[0].0 == 0u64);
            assert(eps0[0].1@ =~= seq![
                (first.start_state + 1) as u64,
                (second.start_state + off2) as u64,
            ]);
        }
        extend_shifted_etable(&mut eps, &first.epsilon_transitions, 1u64);
        let ghost after_eps1 = eps@;
        extend_shifted_etable(&mut eps, &second.epsilon_transitions, off2);
        let ghost fe = first.epsilon_transitions@;
        let ghost se = second.epsilon_transitions@;
        proof {
            assert forall|m: int| 0 <= m < fe.len() implies ((#[trigger] eps@[1 + m]).0 == (
            fe[m].0 + 1) as u64) && eps@[1 + m].1@ == shift_seq(fe[m].1@, 1u64) by {
                assert(after_eps1[eps0.len() + m].0 == (fe[m].0 + 1) as u64);
                assert(after_eps1[eps0.len() + m].1@ == fe[m].1@.map_values(
                    |t: u64| (t + 1) as u64,
                ));
                assert(eps@[1 + m] == after_eps1[1 + m]);
            }
            assert forall|m: int| 0 <= m < se.len() implies ((#[trigger] eps@[1 + fe.len()
                + m]).0 == (se[m].0 + off2) as u64) && eps@[1 + fe.len() + m].1@ == shift_seq(
                se[m].1@,
                off2,
            ) by {
                assert(eps@[after_eps1.len() + m].0 == (se[m].0 + off2) as u64);
                assert(eps@[after_eps1.len() + m].1@ == se[m].1@.map_values(
                    |t: u64| (t + off2) as u64,
                ));
            }
            assert forall|m: int| 0 <= m < fe.len() implies ((#[trigger] fe[m]).0 as int)
                < n1 by {
                assert(first.states@.contains(fe[m].0));
            }
            assert forall|m: int| 0 <= m < se.len() implies ((#[trigger] se[m]).0 as int)
                < n2 by {
                assert(second.states@.contains(se[m].0));
            }
            assert forall|m1: int, m2: int| 0 <= m1 < m2 < eps@.len() implies (
            #[trigger] eps@[m1]).0 != (#[trigger] eps@[m2]).0 by {
                if m1 == 0 {
                    assert(eps@[0] == eps0[0]);
                    if m2 <= fe.len() {
                        assert(eps@[1 + (m2 - 1)].0 == (fe[(m2 - 1) as int].0 + 1) as u64);
                    } else {
                        assert(eps@[1 + fe.len() + (m2 - 1 - fe.len())].0 == (se[(m2 - 1
                            - fe.len()) as int].0 + off2) as u64);
                    }
                } else if m2 <= fe.len() {
                    assert(eps@[1 + (m1 - 1)].0 == (fe[(m1 - 1) as int].0 + 1) as u64);
                    assert(eps@[1 + (m2 - 1)].0 == (fe[(m2 - 1) as int].0 + 1) as u64);
                    assert(fe[(m1 - 1) as int].0 != fe[(m2 - 1) as int].0);
                } else if m1 > fe.len() {
                    assert(eps@[1 + fe.len() + (m1 - 1 - fe.len())].0 == (se[(m1 - 1 - fe.len())
                        as int].0 + off2) as u64);
                    assert(eps@[1 + fe.len() + (m2 - 1 - fe.len())].0 == (se[(m2 - 1 - fe.len())
                        as int].0 + off2) as u64);
                    assert(se[(m1 - 1 - fe.len()) as int].0 != se[(m2 - 1 - fe.len()) as int].0);
                } else {
                    assert(eps@[1 + (m1 - 1)].0 == (fe[(m1 - 1) as int].0 + 1) as u64);
                    assert(eps@[1 + fe.len() + (m2 - 1 - fe.len())].0 == (se[(m2 - 1 - fe.len())
                        as int].0 + off2) as u64);
                }
            }
            assert forall|m: int| (0 <= m < 1 || 1 + fe.len() <= m < eps@.len()) implies !((
            1 as int) <= ((#[trigger] eps@[m]).0 as int) < 1 + (n1 as int)) by {
                if m == 0 {
                    assert(eps@[0] == eps0[0]);
                } else {
                    let q = m - 1 - fe.len();
                    assert(eps@[1 + fe.len() + q].0 == (se[q].0 + off2) as u64);
                }
            }
            assert forall|m: int| (0 <= m < 1 + fe.len() || eps@.len() <= m < eps@.len())
                implies !((off2 as int) <= ((#[trigger] eps@[m]).0 as int) < (off2 as int) + (
            n2 as int)) by {
                if m == 0 {
                    assert(eps@[0] == eps0[0]);
                } else {
                    let q = m - 1;
                    assert(eps@[1 + q].0 == (fe[q].0 + 1) as u64);
                }
            }
            lemma_etable_segment(eps@, fe, 1, 1u64, n1 as u64);
            lemma_etable_segment(eps@, se, 1 + fe.len() as int, off2, n2 as u64);
            lemma_etable_at(eps@, 0u64, 0);
        }
        proof {
            assert forall|j: int| 0 <= j < first.accepting@.len() implies (
            #[trigger] first.accepting@[j] as int) + 1 <= u64::MAX by {
                assert(first.accepting@.contains(first.accepting@[j]));
                assert(first.states@.contains(first.accepting@[j]));
            }
            assert forall|j: int| 0 <= j < second.accepting@.len() implies (
            #[trigger] second.accepting@[j] as int) + (off2 as int) <= u64::MAX by {
                assert(second.accepting@.contains(second.accepting@[j]));
                assert(second.states@.contains(second.accepting@[j]));
            }
        }
        let mut accepting = copy_shifted(&first.accepting, 1u64);
        let acc2 = copy_shifted(&second.accepting, off2);
        let ghost acc_first = accepting@;
        let mut j: usize = 0;
        while j < acc2.len()
            invariant
                0 <= j <= acc2@.len(),
                accepting@.len() == acc_first.len() + j,
                forall|m: int| 0 <= m < acc_first.len() ==> #[trigger] accepting@[m]
                    == acc_first[m],
                forall|m: int|
                    0 <= m < j ==> #[trigger] accepting@[acc_first.len() + m] == acc2@[m],
            decreases acc2@.len() - j,
        {
            accepting.push(acc2[j]);
            j = j + 1;
        }
        proof {
            assert forall|a: u64| #[trigger] accepting@.contains(a) implies ((1 <= (a as int) < 1
                + n1 && first.accepting@.contains((a - 1) as u64)) || ((off2 as int) <= (a as int)
                < nn && second.accepting@.contains((a - off2) as u64))) by {
                let m = choose|m: int| 0 <= m < accepting@.len() && accepting@[m] == a;
                if m < acc_first.len() {
                    assert(accepting@[m] == acc_first[m]);
                    assert(acc_first[m] == (first.accepting@[m] + 1) as u64);
                    assert(first.accepting@.contains(first.accepting@[m]));
                    assert(first.states@.contains(first.accepting@[m]));
                } else {
                    let q = m - acc_first.len();
                    assert(accepting@[acc_first.len() + q] == acc2@[q]);
                    assert(acc2@[q] == (second.accepting@[q] + off2) as u64);
                    assert(second.accepting@.contains(second.accepting@[q]));
                    assert(second.states@.contains(second.accepting@[q]));
                }
            }
            assert forall|a: u64|
                ((1 <= (a as int) < 1 + n1 && first.accepting@.contains((a - 1) as u64)) || ((
                off2 as int) <= (a as int) < nn && second.accepting@.contains(
                    (a - off2) as u64,
                ))) implies #[trigger] accepting@.contains(a) by {
                if 1 <= (a as int) < 1 + n1 && first.accepting@.contains((a - 1) as u64) {
                    let q = choose|q: int|
                        0 <= q < first.accepting@.len() && first.accepting@[q] == (a - 1) as u64;
                    assert(acc_first[q] == a);
                    assert(accepting@[q] == a);
                } else {
                    let q = choose|q: int|
                        0 <= q < second.accepting@.len() && second.accepting@[q] == (a - off2)
                            as u64;
                    assert(acc2@[q] == a);
                    assert(accepting@[acc_first.len() + q] == a);
                }
            }
            assert forall|m1: int, m2: int| 0 <= m1 < m2 < accepting@.len() implies accepting@[m1]
                != accepting@[m2] by {
                if m2 < acc_first.len() {
                    assert(first.accepting@[m1] != first.accepting@[m2]);
                    assert(first.accepting@.contains(first.accepting@[m1]));
                    assert(first.accepting@.contains(first.accepting@[m2]));
                    assert(first.states@.contains(first.accepting@[m1]));
                    assert(first.states@.contains(first.accepting@[m2]));
                } else if m1 >= acc_first.len() {
                    let q1 = m1 - acc_first.len();
                    let q2 = m2 - acc_first.len();
                    assert(accepting@[acc_first.len() + q1] == acc2@[q1]);
                    assert(accepting@[acc_first.len() + q2] == acc2@[q2]);
                    assert(second.accepting@[q1] != second.accepting@[q2]);
                    assert(second.accepting@.contains(second.accepting@[q1]));
                    assert(second.accepting@.contains(second.accepting@[q2]));
                    assert(second.states@.contains(second.accepting@[q1]));
                    assert(second.states@.contains(second.accepting@[q2]));
                } else {
                    let q2 = m2 - acc_first.len();
                    assert(accepting@[acc_first.len() + q2] == acc2@[q2]);
                    assert(first.accepting@.contains(first.accepting@[m1]));
                    assert(first.states@.contains(first.accepting@[m1]));
                    assert(second.accepting@.contains(second.accepting@[q2]));
                    assert(second.states@.contains(second.accepting@[q2]));
                    assert((accepting@[m1] as int) < 1 + n1);
                    assert((accepting@[m2] as int) >= (off2 as int));
                }
            }
            assert(accepting@.no_duplicates());
        }
        let r = Nfa {
            states,
            alphabet: crate::table::copy_values(&first.alphabet),
            start_state: 0u64,
            transitions,
            epsilon_transitions: eps,
            accepting,
        };
        proof {
            assert(r.states@[0] == 0u64);
            assert(r.states@.contains(0u64));
            assert forall|c: u64| #[trigger] r.step_targets(0u64, c) == Seq::<u64>::empty() by {
                if ntable_has(r.transitions@, (0u64, c)) {
                    let m = choose|m: int|
                        0 <= m < r.transitions@.len() && (#[trigger] r.transitions@[m]).0 == (
                        0u64,
                        c,
                        );
                    if m < ft.len() {
                        assert(r.transitions@[m].0.0 == (ft[m].0.0 + 1) as u64);
                        assert(false);
                    } else {
                        let q = m - ft.len();
                        assert(r.transitions@[ft.len() + q].0.0 == (st[q].0.0 + off2) as u64);
                        assert(false);
                    }
                }
                assert(r.step_targets(0u64, c) =~= Seq::<u64>::empty());
            }
            assert forall|s: u64, c: u64| 1 <= (s as int) < 1 + n1 implies #[trigger] r.step_targets(
                s,
                c,
            ) == shift_seq(first.step_targets((s - 1) as u64, c), 1u64) by {
                assert(seg_at_ok(r.transitions@, ft, 1u64, (s, c)));
            }
            assert forall|s: u64, c: u64|
                1 + n1 <= (s as int) < nn implies #[trigger] r.step_targets(s, c) == shift_seq(
                second.step_targets((s - off2) as u64, c),
                off2,
            ) by {
                assert(seg_at_ok(r.transitions@, st, off2, (s, c)));
            }
            assert forall|s: u64| 1 <= (s as int) < 1 + n1 implies #[trigger] r.eps_targets(s)
                == shift_seq(first.eps_targets((s - 1) as u64), 1u64) by {
                assert(eseg_at_ok(r.epsilon_transitions@, fe, 1u64, s));
            }
            assert forall|s: u64| 1 + n1 <= (s as int) < nn implies #[trigger] r.eps_targets(s)
                == shift_seq(second.eps_targets((s - off2) as u64), off2) by {
                assert(eseg_at_ok(r.epsilon_transitions@, se, off2, s));
            }
            // well-formedness of the assembled automaton
            assert forall|m: int| 0 <= m < r.transitions@.len() implies r.states@.contains(
                (#[trigger] r.transitions@[m]).0.0,
            ) && r.alphabet@.contains(r.transitions@[m].0.1) && (forall|j2: int|
                0 <= j2 < r.transitions@[m].1@.len() ==> r.states@.contains(
                    #[trigger] r.transitions@[m].1@[j2],
                )) by {
                if m < ft.len() {
                    assert(first.states@.contains(ft[m].0.0));
                    assert((r.transitions@[m].0.0 as int) < nn);
                    assert(r.states@.contains(r.transitions@[m].0.0));
                    assert(first.alphabet@.contains(ft[m].0.1));
                    assert forall|j2: int| 0 <= j2 < r.transitions@[m].1@.len()
                        implies r.states@.contains(#[trigger] r.transitions@[m].1@[j2]) by {
                        assert(r.transitions@[m].1@.len() == ft[m].1@.len());
                        assert(r.transitions@[m].1@[j2] == (ft[m].1@[j2] + 1) as u64);
                        assert(first.states@.contains(ft[m].1@[j2]));
                        assert((r.transitions@[m].1@[j2] as int) < nn);
                    }
                } else {
                    let q = m - ft.len();
                    assert(r.transitions@[ft.len() + q].0 == (
                        ((st[q].0.0 + off2) as u64),
                        st[q].0.1,
                    ));
                    assert(r.transitions@[ft.len() + q].1@ == shift_seq(st[q].1@, off2));
                    assert(second.states@.contains(st[q].0.0));
                    assert((r.transitions@[m].0.0 as int) < nn);
                    assert(r.states@.contains(r.transitions@[m].0.0));
                    assert(second.alphabet@.contains(st[q].0.1));
                    assert(second.alphabet@.to_set().contains(st[q].0.1));
                    assert(r.alphabet@.contains(st[q].0.1));
                    assert forall|j2: int| 0 <= j2 < r.transitions@[m].1@.len()
                        implies r.states@.contains(#[trigger] r.transitions@[m].1@[j2]) by {
                        assert(r.transitions@[m].1@.len() == st[q].1@.len());
                        assert(r.transitions@[m].1@[j2] == (st[q].1@[j2] + off2) as u64);
                        assert(second.states@.contains(st[q].1@[j2]));
                        assert((r.transitions@[m].1@[j2] as int) < nn);
                    }
                }
            }
            assert forall|m: int| 0 <= m < r.epsilon_transitions@.len()
                implies r.states@.contains((#[trigger] r.epsilon_transitions@[m]).0) && (forall|
                j2: int,
            |
                0 <= j2 < r.epsilon_transitions@[m].1@.len() ==> r.states@.contains(
                    #[trigger] r.epsilon_transitions@[m].1@[j2],
                )) by {
                if m == 0 {
                    assert(r.epsilon_transitions@[0] == eps0[0]);
                    assert(r.states@.contains(0u64));
                    assert forall|j2: int| 0 <= j2 < r.epsilon_transitions@[m].1@.len()
                        implies r.states@.contains(
                        #[trigger] r.epsilon_transitions@[m].1@[j2],
                    ) by {
                        assert(first.states@.contains(first.start_state));
                        assert(second.states@.contains(second.start_state));
                        if j2 == 0 {
                            assert(r.epsilon_transitions@[m].1@[0] == (first.start_state + 1)
                                as u64);
                        } else {
                            assert(r.epsilon_transitions@[m].1@[1] == (second.start_state + off2)
                                as u64);
                        }
                        assert((r.epsilon_transitions@[m].1@[j2] as int) < nn);
                    }
                } else if m <= fe.len() {
                    let q = m - 1;
                    assert(r.epsilon_transitions@[1 + q].0 == (fe[q].0 + 1) as u64);
                    assert(r.epsilon_transitions@[1 + q].1@ == shift_seq(fe[q].1@, 1u64));
                    assert(first.states@.contains(fe[q].0));
                    assert((r.epsilon_transitions@[m].0 as int) < nn);
                    assert(r.states@.contains(r.epsilon_transitions@[m].0));
                    assert forall|j2: int| 0 <= j2 < r.epsilon_transitions@[m].1@.len()
                        implies r.states@.contains(
                        #[trigger] r.epsilon_transitions@[m].1@[j2],
                    ) by {
                        assert(r.epsilon_transitions@[m].1@.len() == fe[q].1@.len());
                        assert(r.epsilon_transitions@[m].1@[j2] == (fe[q].1@[j2] + 1) as u64);
                        assert(first.states@.contains(fe[q].1@[j2]));
                        assert((r.epsilon_transitions@[m].1@[j2] as int) < nn);
                    }
                } else {
                    let q = m - 1 - fe.len();
                    assert(r.epsilon_transitions@[1 + fe.len() + q].0 == (se[q].0 + off2) as u64);
                    assert(r.epsilon_transitions@[1 + fe.len() + q].1@ == shift_seq(
                        se[q].1@,
                        off2,
                    ));
                    assert(second.states@.contains(se[q].0));
                    assert((r.epsilon_transitions@[m].0 as int) < nn);
                    assert(r.states@.contains(r.epsilon_transitions@[m].0));
                    assert forall|j2: int| 0 <= j2 < r.epsilon_transitions@[m].1@.len()
                        implies r.states@.contains(
                        #[trigger] r.epsilon_transitions@[m].1@[j2],
                    ) by {
                        assert(r.epsilon_transitions@[m].1@.len() == se[q].1@.len());
                        assert(r.epsilon_transitions@[m].1@[j2] == (se[q].1@[j2] + off2) as u64);
                        assert(second.states@.contains(se[q].1@[j2]));
                        assert((r.epsilon_transitions@[m].1@[j2] as int) < nn);
                    }
                }
            }
            assert forall|a: u64| #[trigger] r.accepting@.contains(a) implies r.states@.contains(
                a,
            ) by {
                assert((a as int) < nn);
            }
            assert(r.wf());
        }
        r
    }
}

impl Nfa {
    /// The star automaton: a fresh accepting start state numbered 0 with an
    /// epsilon edge to the renumbered start of `self`, whose states are
    /// shifted to `1..1+n`; every accepting state of `self` gets an epsilon
    /// edge back to the renumbered start.
    ///
    /// The operand must carry densely numbered states, as `relabel_states`
    /// produces.
    pub fn star(&self) -> (r: Nfa)
        requires
            self.wf(),
            forall|m: int| 0 <= m < self.states@.len() ==> #[trigger] self.states@[m] == m as u64,
            1 + self.states@.len() <= usize::MAX,
        ensures
            r.wf(),
            r.alphabet@ == self.alphabet@,
            r.states@.len() == 1 + self.states@.len(),
            forall|m: int| 0 <= m < r.states@.len() ==> #[trigger] r.states@[m] == m as u64,
            r.start_state == 0u64,
            forall|c: u64| #[trigger] r.step_targets(0u64, c) == Seq::<u64>::empty(),
            forall|s: u64, c: u64|
                1 <= (s as int) < r.states@.len() ==> #[trigger] r.step_targets(s, c)
                    == shift_seq(self.step_targets((s - 1) as u64, c), 1u64),
            r.eps_targets(0u64) == seq![(self.start_state + 1) as u64],
            forall|s: u64, t: u64|
                1 <= (s as int) < r.states@.len() ==> ((#[trigger] r.eps_targets(s).contains(t))
                    <==> (shift_seq(self.eps_targets((s - 1) as u64), 1u64).contains(t) || (
                self.accepting@.contains((s - 1) as u64) && t == (self.start_state + 1) as u64))),
            forall|a: u64|
                #[trigger] r.accepting@.contains(a) <==> (a == 0u64 || (1 <= (a as int)
                    < r.states@.len() && self.accepting@.contains((a - 1) as u64))),
    {
        let n1 = self.states.len();
        let nn = 1 + n1;
        proof {
            lemma_dense_members(self.states@);
        }
        let mut states: Vec<u64> = Vec::new();
        let mut k: usize = 0;
        while k < nn
            invariant
                0 <= k <= nn,
                states@.len() == k,
                forall|m: int| 0 <= m < k ==> #[trigger] states@[m] == m as u64,
            decreases nn - k,
        {
            states.push(k as u64);
            k = k + 1;
        }
        proof {
            lemma_dense_members(states@);
        }
        let ghost ft = self.transitions@;
        let mut transitions: Vec<((u64, u64), Vec<u64>)> = Vec::new();
        extend_shifted_ntable(&mut transitions, &self.transitions, 1u64);
        proof {
            assert forall|m: int| 0 <= m < ft.len() implies (#[trigger] transitions@[m]).0 == (
                ((ft[m].0.0 + 1) as u64),
                ft[m].0.1,
            ) && transitions@[m].1@ == shift_seq(ft[m].1@, 1u64) by {
                assert(transitions@[0 + m].0 == (((ft[m].0.0 + 1) as u64), ft[m].0.1));
                assert(transitions@[0 + m].1@ == ft[m].1@.map_values(|t: u64| (t + 1) as u64));
            }
            assert forall|m: int| 0 <= m < ft.len() implies ((#[trigger] ft[m]).0.0 as int)
                < n1 by {
                assert(self.states@.contains(ft[m].0.0));
            }
            assert forall|m1: int, m2: int| 0 <= m1 < m2 < transitions@.len() implies (
            #[trigger] transitions@[m1]).0 != (#[trigger] transitions@[m2]).0 by {
                assert(ft[m1].0 != ft[m2].0);
                assert(ft[m1].0 == (ft[m1].0.0, ft[m1].0.1));
                assert(ft[m2].0 == (ft[m2].0.0, ft[m2].0.1));
            }
            assert forall|m: int| (0 <= m < 0 || ft.len() <= m < transitions@.len()) implies !((
            1 as int) <= ((#[trigger] transitions@[m]).0.0 as int) < 1 + (n1 as int)) by {}
            lemma_ntable_segment(transitions@, ft, 0, 1u64, n1 as u64);
        }
        let sstart = self.start_state + 1;
        let mut eps: Vec<(u64, Vec<u64>)> = Vec::new();
        let mut first_targets: Vec<u64> = Vec::new();
        first_targets.push(sstart);
        eps.push((0u64, first_targets));
        let ghost eps0 = eps@;
        proof {
            assert(self.states@.contains(self.start_state));
            assert(eps0.len() == 1 && eps0[0].0 == 0u64);
            assert(eps0[0].1@ =~= seq![sstart]);
            assert(ekeys_distinct(eps0));
        }
        build_linked_etable(&mut eps, self, 1u64, sstart);
        let ghost fe = self.epsilon_transitions@;
        proof {
            lemma_etable_at(eps@, 0u64, 0);
            assert(eps@[0] == eps0[0]);
            assert(etable_at(eps@, 0u64) == seq![sstart]);
        }
        let mut accepting: Vec<u64> = Vec::new();
        accepting.push(0u64);
        proof {
            assert forall|j: int| 0 <= j < self.accepting@.len() implies (
            #[trigger] self.accepting@[j] as int) + 1 <= u64::MAX by {
                assert(self.accepting@.contains(self.accepting@[j]));
                assert(self.states@.contains(self.accepting@[j]));
            }
        }
        let acc2 = copy_shifted(&self.accepting, 1u64);
        let ghost acc_first = accepting@;
        let mut j: usize = 0;
        while j < acc2.len()
            invariant
                0 <= j <= acc2@.len(),
                accepting@.len() == 1 + j,
                accepting@[0] == 0u64,
                forall|m: int| 0 <= m < j ==> #[trigger] accepting@[1 + m] == acc2@[m],
            decreases acc2@.len() - j,
        {
            accepting.push(acc2[j]);
            j = j + 1;
        }
        proof {
            assert forall|a: u64| #[trigger] accepting@.contains(a) implies (a == 0u64 || (1 <= (
            a as int) < nn && self.accepting@.contains((a - 1) as u64))) by {
                let m = choose|m: int| 0 <= m < accepting@.len() && accepting@[m] == a;
                if m > 0 {
                    let q = m - 1;
                    assert(accepting@[1 + q] == acc2@[q]);
                    assert(acc2@[q] == (self.accepting@[q] + 1) as u64);
                    assert(self.accepting@.contains(self.accepting@[q]));
                    assert(self.states@.contains(self.accepting@[q]));
                }
            }
            assert forall|a: u64|
                (a == 0u64 || (1 <= (a as int) < nn && self.accepting@.contains(
                    (a - 1) as u64,
                ))) implies #[trigger] accepting@.contains(a) by {
                if a == 0u64 {
                    assert(accepting@[0] == a);
                } else {
                    let q = choose|q: int|
                        0 <= q < self.accepting@.len() && self.accepting@[q] == (a - 1) as u64;
                    assert(acc2@[q] == a);
                    assert(accepting@[1 + q] == a);
                }
            }
            assert forall|m1: int, m2: int| 0 <= m1 < m2 < accepting@.len() implies accepting@[m1]
                != accepting@[m2] by {
                if m1 == 0 {
                    let q2 = m2 - 1;
                    assert(accepting@[1 + q2] == acc2@[q2]);
                    assert(self.accepting@.contains(self.accepting@[q2]));
                    assert(self.states@.contains(self.accepting@[q2]));
                    assert((accepting@[m2] as int) >= 1);
                } else {
                    let q1 = m1 - 1;
                    let q2 = m2 - 1;
                    assert(accepting@[1 + q1] == acc2@[q1]);
                    assert(accepting@[1 + q2] == acc2@[q2]);
                    assert(self.accepting@[q1] != self.accepting@[q2]);
                    assert(self.accepting@.contains(self.accepting@[q1]));
                    assert(self.accepting@.contains(self.accepting@[q2]));
                    assert(self.states@.contains(self.accepting@[q1]));
                    assert(self.states@.contains(self.accepting@[q2]));
                }
            }
            assert(accepting@.no_duplicates());
        }
        let r = Nfa {
            states,
            alphabet: crate::table::copy_values(&self.alphabet),
            start_state: 0u64,
            transitions,
            epsilon_transitions: eps,
            accepting,
        };
        proof {
            assert(r.states@[0] == 0u64);
            assert(r.states@.contains(0u64));
            assert forall|c: u64| #[trigger] r.step_targets(0u64, c) == Seq::<u64>::empty() by {
                if ntable_has(r.transitions@, (0u64, c)) {
                    let m = choose|m: int|
                        0 <= m < r.transitions@.len() && (#[trigger] r.transitions@[m]).0 == (
                        0u64,
                        c,
                        );
                    assert(r.transitions@[m].0.0 == (ft[m].0.0 + 1) as u64);
                    assert(false);
                }
                assert(r.step_targets(0u64, c) =~= Seq::<u64>::empty());
            }
            assert forall|s: u64, c: u64|
                1 <= (s as int) < nn implies #[trigger] r.step_targets(s, c) == shift_seq(
                self.step_targets((s - 1) as u64, c),
                1u64,
            ) by {
                assert(seg_at_ok(r.transitions@, ft, 1u64, (s, c)));
            }
            // well-formedness
            assert forall|m: int| 0 <= m < r.transitions@.len() implies r.states@.contains(
                (#[trigger] r.transitions@[m]).0.0,
            ) && r.alphabet@.contains(r.transitions@[m].0.1) && (forall|j2: int|
                0 <= j2 < r.transitions@[m].1@.len() ==> r.states@.contains(
                    #[trigger] r.transitions@[m].1@[j2],
                )) by {
                assert(self.states@.contains(ft[m].0.0));
                assert((r.transitions@[m].0.0 as int) < nn);
                assert(r.states@.contains(r.transitions@[m].0.0));
                assert(self.alphabet@.contains(ft[m].0.1));
                assert forall|j2: int| 0 <= j2 < r.transitions@[m].1@.len()
                    implies r.states@.contains(#[trigger] r.transitions@[m].1@[j2]) by {
                    assert(r.transitions@[m].1@.len() == ft[m].1@.len());
                    assert(r.transitions@[m].1@[j2] == (ft[m].1@[j2] + 1) as u64);
                    assert(self.states@.contains(ft[m].1@[j2]));
                    assert((r.transitions@[m].1@[j2] as int) < nn);
                }
            }
            assert forall|m: int| 0 <= m < r.epsilon_transitions@.len()
                implies r.states@.contains((#[trigger] r.epsilon_transitions@[m]).0) && (forall|
                j2: int,
            |
                0 <= j2 < r.epsilon_transitions@[m].1@.len() ==> r.states@.contains(
                    #[trigger] r.epsilon_transitions@[m].1@[j2],
                )) by {
                let key = r.epsilon_transitions@[m].0;
                if m == 0 {
                    assert(r.epsilon_transitions@[0] == eps0[0]);
                    assert(key == 0u64);
                    assert(r.states@.contains(key));
                    assert forall|j2: int| 0 <= j2 < r.epsilon_transitions@[m].1@.len()
                        implies r.states@.contains(
                        #[trigger] r.epsilon_transitions@[m].1@[j2],
                    ) by {
                        assert(r.epsilon_transitions@[m].1@[j2] == sstart);
                        assert(self.states@.contains(self.start_state));
                        assert((sstart as int) < nn);
                    }
                } else {
                    assert(1 <= (key as int) < 1 + n1);
                    assert(r.states@.contains(key));
                    lemma_etable_at(r.epsilon_transitions@, key, m);
                    assert forall|j2: int| 0 <= j2 < r.epsilon_transitions@[m].1@.len()
                        implies r.states@.contains(
                        #[trigger] r.epsilon_transitions@[m].1@[j2],
                    ) by {
                        let t = r.epsilon_transitions@[m].1@[j2];
                        assert(etable_at(r.epsilon_transitions@, key).contains(t));
                        if shift_seq(self.eps_targets((key - 1) as u64), 1u64).contains(t) {
                            let shifted = shift_seq(self.eps_targets((key - 1) as u64), 1u64);
                            let jj = choose|jj: int|
                                0 <= jj < shifted.len() && #[trigger] shifted[jj] == t;
                            assert(t == (self.eps_targets((key - 1) as u64)[jj] + 1) as u64);
                            self.lemma_eps_targets_in_states((key - 1) as u64);
                            assert(self.states@.contains(self.eps_targets((key - 1) as u64)[jj]));
                            assert((t as int) < nn);
                        } else {
                            assert(t == sstart);
                            assert(self.states@.contains(self.start_state));
                            assert((t as int) < nn);
                        }
                        assert(r.states@.contains(t));
                    }
                }
            }
            assert forall|a: u64| #[trigger] r.accepting@.contains(a) implies r.states@.contains(
                a,
            ) by {
                assert((a as int) < nn);
            }
            assert(r.wf());
        }
        r
    }
}

impl Nfa {
    /// Is there an edge from `s` to `t`, by some alphabet symbol or epsilon?
    pub open spec fn edge_to(self, s: u64, t: u64) -> bool {
        (exists|c: u64| self.alphabet@.contains(c) && self.step_targets(s, c).contains(t))
            || self.eps_targets(s).contains(t)
    }

    /// Is `p` a walk along symbol and epsilon edges?
    pub open spec fn walk(self, p: Seq<u64>) -> bool {
        p.len() >= 1 && forall|i: int|
            0 <= i < p.len() - 1 ==> self.edge_to(#[trigger] p[i], p[i + 1])
    }

    /// Is the state `t` reachable from the start state?
    pub open spec fn reach_state(self, t: u64) -> bool {
        exists|p: Seq<u64>| self.walk(p) && p.first() == self.start_state && p.last() == t
    }

    /// A one-state walk reaches its own state.
    proof fn lemma_walk_refl(self)
        ensures
            self.reach_state(self.start_state),
    {
        let p = seq![self.start_state];
        assert(p.len() == 1);
        assert(self.walk(p) && p.first() == self.start_state && p.last() == self.start_state);
    }

    /// Extending a walk by one edge.
    proof fn lemma_walk_step(self, t: u64, u: u64)
        requires
            self.reach_state(t),
            self.edge_to(t, u),
        ensures
            self.reach_state(u),
    {
        let p = choose|p: Seq<u64>|
            self.walk(p) && p.first() == self.start_state && p.last() == t;
        let p2 = p.push(u);
        assert forall|i: int| 0 <= i < p2.len() - 1 implies self.edge_to(
            #[trigger] p2[i],
            p2[i + 1],
        ) by {
            if i < p.len() - 1 {
                assert(p2[i] == p[i] && p2[i + 1] == p[i + 1]);
                assert(self.edge_to(p[i], p[i + 1]));
            } else {
                assert(p2[i] == p.last() && p2[i + 1] == u);
            }
        }
        assert(p2.first() == self.start_state && p2.last() == u);
        assert(self.walk(p2));
    }

    /// A set of states that contains the head of a walk and is closed under
    /// symbol and epsilon edges contains its end.
    proof fn lemma_walk_in_closed(self, r: Seq<u64>, p: Seq<u64>)
        requires
            self.walk(p),
            r.contains(p.first()),
            forall|x: u64, c: u64, j: int|
                r.contains(x) && self.alphabet@.contains(c) && 0 <= j < self.step_targets(
                    x,
                    c,
                ).len() ==> r.contains(#[trigger] self.step_targets(x, c)[j]),
            forall|x: u64, j: int|
                r.contains(x) && 0 <= j < self.eps_targets(x).len() ==> r.contains(
                    #[trigger] self.eps_targets(x)[j],
                ),
        ensures
            r.contains(p.last()),
        decreases p.len(),
    {
        if p.len() > 1 {
            assert(self.edge_to(p[0], p[1]));
            if exists|c: u64|
                self.alphabet@.contains(c) && self.step_targets(p[0], c).contains(p[1]) {
                let c = choose|c: u64|
                    self.alphabet@.contains(c) && self.step_targets(p[0], c).contains(p[1]);
                let j = choose|j: int|
                    0 <= j < self.step_targets(p[0], c).len() && self.step_targets(p[0], c)[j]
                        == p[1];
                assert(r.contains(self.step_targets(p[0], c)[j]));
            } else {
                let j = choose|j: int|
                    0 <= j < self.eps_targets(p[0]).len() && self.eps_targets(p[0])[j] == p[1];
                assert(r.contains(self.eps_targets(p[0])[j]));
            }
            let p2 = p.drop_first();
            assert forall|i: int| 0 <= i < p2.len() - 1 implies self.edge_to(
                #[trigger] p2[i],
                p2[i + 1],
            ) by {
                assert(p2[i] == p[i + 1] && p2[i + 1] == p[i + 2]);
                assert(self.edge_to(p[i + 1], p[i + 2]));
            }
            assert(self.walk(p2));
            assert(p2.first() == p[1] && p2.last() == p.last());
            self.lemma_walk_in_closed(r, p2);
        }
    }

    /// All states reachable from the start state along symbol and epsilon edges.
    #[verifier::rlimit(100)]
    #[verifier::spinoff_prover]
    pub fn reachable_states(&self) -> (r: Vec<u64>)
        requires
            self.wf(),
        ensures
            r@.no_duplicates(),
            forall|x: u64| #[trigger] r@.contains(x) ==> self.states@.contains(x),
            forall|x: u64| #[trigger] r@.contains(x) <==> self.reach_state(x),
    {
        let mut result: Vec<u64> = Vec::new();
        let mut stack: Vec<u64> = Vec::new();
        stack.push(self.start_state);
        proof {
            self.lemma_walk_refl();
            assert(stack@[0] == self.start_state);
            assert(stack@.contains(self.start_state));
        }
        while stack.len() > 0
            invariant
                result@.no_duplicates(),
                result@.len() <= self.states@.len(),
                forall|x: u64|
                    #[trigger] result@.contains(x) ==> self.states@.contains(x)
                        && self.reach_state(x),
                forall|x: u64|
                    #[trigger] stack@.contains(x) ==> self.states@.contains(x)
                        && self.reach_state(x),
                result@.contains(self.start_state) || stack@.contains(self.start_state),
                forall|x: u64, c: u64, j: int|
                    result@.contains(x) && self.alphabet@.contains(c) && 0 <= j
                        < self.step_targets(x, c).len() ==> result@.contains(
                        #[trigger] self.step_targets(x, c)[j],
                    ) || stack@.contains(self.step_targets(x, c)[j]),
                forall|x: u64, j: int|
                    result@.contains(x) && 0 <= j < self.eps_targets(x).len() ==> result@.contains(
                        #[trigger] self.eps_targets(x)[j],
                    ) || stack@.contains(self.eps_targets(x)[j]),
            decreases self.states@.len() - result@.len(), stack@.len(),
        {
            let ghost old_stack = stack@;
            let x = match stack.pop() {
                Some(v) => v,
                None => unreached(),
            };
            proof {
                assert(old_stack.contains(old_stack.last()));
                assert forall|y: u64| #[trigger] stack@.contains(y) implies old_stack.contains(
                    y,
                ) by {
                    let i2 = choose|i2: int| 0 <= i2 < stack@.len() && stack@[i2] == y;
                    assert(old_stack[i2] == y);
                }
            }
            if !vec_contains(&result, x) {
                let ghost pre_result = result@;
                result.push(x);
                let ghost mid_result = result@;
                let ghost post_pop = stack@;
                proof {
                    assert(mid_result[pre_result.len() as int] == x);
                    assert(mid_result.contains(x));
                    assert forall|y: u64| #[trigger] result@.contains(y)
                        implies self.states@.contains(y) && self.reach_state(y) by {
                        let i2 = choose|i2: int| 0 <= i2 < result@.len() && result@[i2] == y;
                        if i2 < pre_result.len() {
                            assert(pre_result[i2] == y);
                            assert(pre_result.contains(y));
                        } else {
                            assert(y == x);
                        }
                    }
                    assert forall|y: u64, c: u64, j: int|
                        result@.contains(y) && self.alphabet@.contains(c) && 0 <= j
                            < self.step_targets(y, c).len() && y != x implies result@.contains(
                        #[trigger] self.step_targets(y, c)[j],
                    ) || stack@.contains(self.step_targets(y, c)[j]) by {
                        let i2 = choose|i2: int| 0 <= i2 < result@.len() && result@[i2] == y;
                        if i2 < pre_result.len() {
                            assert(pre_result[i2] == y);
                            assert(pre_result.contains(y));
                        }
                        let t = self.step_targets(y, c)[j];
                        if pre_result.contains(t) {
                            let m = choose|m: int| 0 <= m < pre_result.len() && pre_result[m] == t;
                            assert(result@[m] == t);
                            assert(result@.contains(t));
                        } else {
                            assert(old_stack.contains(t));
                            let m = choose|m: int| 0 <= m < old_stack.len() && old_stack[m] == t;
                            if m < old_stack.len() - 1 {
                                assert(stack@[m] == t);
                                assert(stack@.contains(t));
                            } else {
                                assert(t == x);
                                assert(result@.contains(t));
                            }
                        }
                    }
                    assert forall|y: u64, j: int|
                        result@.contains(y) && 0 <= j < self.eps_targets(y).len() && y
                            != x implies result@.contains(#[trigger] self.eps_targets(y)[j])
                        || stack@.contains(self.eps_targets(y)[j]) by {
                        let i2 = choose|i2: int| 0 <= i2 < result@.len() && result@[i2] == y;
                        if i2 < pre_result.len() {
                            assert(pre_result[i2] == y);
                            assert(pre_result.contains(y));
                        }
                        let t = self.eps_targets(y)[j];
                        if pre_result.contains(t) {
                            let m = choose|m: int| 0 <= m < pre_result.len() && pre_result[m] == t;
                            assert(result@[m] == t);
                            assert(result@.contains(t));
                        } else {
                            assert(old_stack.contains(t));
                            let m = choose|m: int| 0 <= m < old_stack.len() && old_stack[m] == t;
                            if m < old_stack.len() - 1 {
                                assert(stack@[m] == t);
                                assert(stack@.contains(t));
                            } else {
                                assert(t == x);
                                assert(result@.contains(t));
                            }
                        }
                    }
                    if pre_result.contains(self.start_state) {
                        let i2 = choose|i2: int|
                            0 <= i2 < pre_result.len() && pre_result[i2] == self.start_state;
                        assert(result@[i2] == self.start_state);
                        assert(result@.contains(self.start_state));
                    } else if old_stack.contains(self.start_state) {
                        let i2 = choose|i2: int|
                            0 <= i2 < old_stack.len() && old_stack[i2] == self.start_state;
                        if i2 < old_stack.len() - 1 {
                            assert(stack@[i2] == self.start_state);
                            assert(stack@.contains(self.start_state));
                        } else {
                            assert(x == self.start_state);
                            assert(result@.contains(self.start_state));
                        }
                    }
                    result@.unique_seq_to_set();
                    self.states@.unique_seq_to_set();
                    assert(result@.to_set().subset_of(self.states@.to_set())) by {
                        assert forall|y: u64| result@.to_set().contains(y)
                            implies self.states@.to_set().contains(y) by {
                            assert(result@.contains(y));
                        }
                    }
                    lemma_len_subset(result@.to_set(), self.states@.to_set());
                }
                // follow symbol edges
                let mut ai: usize = 0;
                while ai < self.alphabet.len()
                    invariant
                        0 <= ai <= self.alphabet@.len(),
                        result@ == mid_result,
                        mid_result.contains(x),
                        forall|y: u64| #[trigger] post_pop.contains(y) ==> stack@.contains(y),
                        forall|y: u64|
                            #[trigger] stack@.contains(y) ==> self.states@.contains(y)
                                && self.reach_state(y),
                        forall|q: int, j: int|
                            0 <= q < ai && 0 <= j < self.step_targets(x, self.alphabet@[q]).len()
                                ==> result@.contains(
                                #[trigger] self.step_targets(x, self.alphabet@[q])[j],
                            ) || stack@.contains(self.step_targets(x, self.alphabet@[q])[j]),
                        forall|y: u64, c: u64, j: int|
                            result@.contains(y) && self.alphabet@.contains(c) && 0 <= j
                                < self.step_targets(y, c).len() && y != x ==> result@.contains(
                                #[trigger] self.step_targets(y, c)[j],
                            ) || stack@.contains(self.step_targets(y, c)[j]),
                        forall|y: u64, j: int|
                            result@.contains(y) && 0 <= j < self.eps_targets(y).len() && y != x
                                ==> result@.contains(#[trigger] self.eps_targets(y)[j])
                                || stack@.contains(self.eps_targets(y)[j]),
                        result@.contains(self.start_state) || stack@.contains(self.start_state),
                    decreases self.alphabet@.len() - ai,
                {
                    let c = self.alphabet[ai];
                    let ts = match self.transition(x, c) {
                        Some(v) => v,
                        None => Vec::new(),
                    };
                    proof {
                        assert(self.alphabet@.contains(c));
                        assert(ts@ =~= self.step_targets(x, c));
                        self.lemma_step_targets_in_states(x, c);
                    }
                    let mut j: usize = 0;
                    while j < ts.len()
                        invariant
                            0 <= j <= ts@.len(),
                            ts@ == self.step_targets(x, self.alphabet@[ai as int]),
                            ai < self.alphabet@.len(),
                            result@ == mid_result,
                            mid_result.contains(x),
                            forall|y: u64| #[trigger] post_pop.contains(y) ==> stack@.contains(y),
                            forall|y: u64|
                                #[trigger] stack@.contains(y) ==> self.states@.contains(y)
                                    && self.reach_state(y),
                            forall|jj: int|
                                0 <= jj < j ==> result@.contains(#[trigger] ts@[jj])
                                    || stack@.contains(ts@[jj]),
                            forall|q: int, jj: int|
                                0 <= q < ai && 0 <= jj < self.step_targets(
                                    x,
                                    self.alphabet@[q],
                                ).len() ==> result@.contains(
                                    #[trigger] self.step_targets(x, self.alphabet@[q])[jj],
                                ) || stack@.contains(self.step_targets(x, self.alphabet@[q])[jj]),
                            forall|y: u64, c2: u64, jj: int|
                                result@.contains(y) && self.alphabet@.contains(c2) && 0 <= jj
                                    < self.step_targets(y, c2).len() && y != x
                                    ==> result@.contains(
                                    #[trigger] self.step_targets(y, c2)[jj],
                                ) || stack@.contains(self.step_targets(y, c2)[jj]),
                            forall|y: u64, jj: int|
                                result@.contains(y) && 0 <= jj < self.eps_targets(y).len() && y
                                    != x ==> result@.contains(#[trigger] self.eps_targets(y)[jj])
                                    || stack@.contains(self.eps_targets(y)[jj]),
                            result@.contains(self.start_state) || stack@.contains(
                                self.start_state,
                            ),
                        decreases ts@.len() - j,
                    {
                        let t = ts[j];
                        let ghost pre_stack = stack@;
                        stack.push(t);
                        proof {
                            assert forall|y: u64| pre_stack.contains(y)
                                implies #[trigger] stack@.contains(y) by {
                                let m = choose|m: int|
                                    0 <= m < pre_stack.len() && pre_stack[m] == y;
                                assert(stack@[m] == y);
                            }
                            assert(stack@[pre_stack.len() as int] == t);
                            assert(stack@.contains(t));
                            assert(self.states@.contains(ts@[j as int]));
                            assert(self.edge_to(x, t)) by {
                                assert(self.alphabet@.contains(self.alphabet@[ai as int])
                                    && self.step_targets(x, self.alphabet@[ai as int]).contains(
                                    t,
                                ));
                            }
                            self.lemma_walk_step(x, t);
                            assert forall|y: u64| #[trigger] stack@.contains(y)
                                implies self.states@.contains(y) && self.reach_state(y) by {
                                let m = choose|m: int| 0 <= m < stack@.len() && stack@[m] == y;
                                if m < pre_stack.len() {
                                    assert(pre_stack[m] == y);
                                    assert(pre_stack.contains(y));
                                } else {
                                    assert(y == t);
                                }
                            }
                        }
                        j = j + 1;
                    }
                    ai = ai + 1;
                }
                // follow epsilon edges
                let ets = match etable_lookup(&self.epsilon_transitions, x) {
                    Some(v) => v,
                    None => Vec::new(),
                };
                proof {
                    assert(ets@ =~= self.eps_targets(x));
                    self.lemma_eps_targets_in_states(x);
                }
                let mut j: usize = 0;
                while j < ets.len()
                    invariant
                        0 <= j <= ets@.len(),
                        ets@ == self.eps_targets(x),
                        result@ == mid_result,
                        mid_result.contains(x),
                        forall|y: u64| #[trigger] post_pop.contains(y) ==> stack@.contains(y),
                        forall|y: u64|
                            #[trigger] stack@.contains(y) ==> self.states@.contains(y)
                                && self.reach_state(y),
                        forall|jj: int|
                            0 <= jj < j ==> result@.contains(#[trigger] ets@[jj])
                                || stack@.contains(ets@[jj]),
                        forall|q: int, jj: int|
                            0 <= q < self.alphabet@.len() && 0 <= jj < self.step_targets(
                                x,
                                self.alphabet@[q],
                            ).len() ==> result@.contains(
                                #[trigger] self.step_targets(x, self.alphabet@[q])[jj],
                            ) || stack@.contains(self.step_targets(x, self.alphabet@[q])[jj]),
                        forall|y: u64, c2: u64, jj: int|
                            result@.contains(y) && self.alphabet@.contains(c2) && 0 <= jj
                                < self.step_targets(y, c2).len() && y != x ==> result@.contains(
                                #[trigger] self.step_targets(y, c2)[jj],
                            ) || stack@.contains(self.step_targets(y, c2)[jj]),
                        forall|y: u64, jj: int|
                            result@.contains(y) && 0 <= jj < self.eps_targets(y).len() && y != x
                                ==> result@.contains(#[trigger] self.eps_targets(y)[jj])
                                || stack@.contains(self.eps_targets(y)[jj]),
                        result@.contains(self.start_state) || stack@.contains(self.start_state),
                    decreases ets@.len() - j,
                {
                    let t = ets[j];
                    let ghost pre_stack = stack@;
                    stack.push(t);
                    proof {
                        assert forall|y: u64| pre_stack.contains(y)
                            implies #[trigger] stack@.contains(y) by {
                            let m = choose|m: int| 0 <= m < pre_stack.len() && pre_stack[m] == y;
                            assert(stack@[m] == y);
                        }
                        assert(stack@[pre_stack.len() as int] == t);
                        assert(stack@.contains(t));
                        assert(self.states@.contains(ets@[j as int]));
                        assert(self.edge_to(x, t));
                        self.lemma_walk_step(x, t);
                        assert forall|y: u64| #[trigger] stack@.contains(y)
                            implies self.states@.contains(y) && self.reach_state(y) by {
                            let m = choose|m: int| 0 <= m < stack@.len() && stack@[m] == y;
                            if m < pre_stack.len() {
                                assert(pre_stack[m] == y);
                                assert(pre_stack.contains(y));
                            } else {
                                assert(y == t);
                            }
                        }
                    }
                    j = j + 1;
                }
                proof {
                    assert forall|y: u64, c: u64, jj: int|
                        result@.contains(y) && self.alphabet@.contains(c) && 0 <= jj
                            < self.step_targets(y, c).len() implies result@.contains(
                        #[trigger] self.step_targets(y, c)[jj],
                    ) || stack@.contains(self.step_targets(y, c)[jj]) by {
                        if y == x {
                            let q = choose|q: int|
                                0 <= q < self.alphabet@.len() && self.alphabet@[q] == c;
                            assert(result@.contains(self.step_targets(x, self.alphabet@[q])[jj])
                                || stack@.contains(self.step_targets(x, self.alphabet@[q])[jj]));
                        }
                    }
                    assert forall|y: u64, jj: int|
                        result@.contains(y) && 0 <= jj < self.eps_targets(y).len()
                            implies result@.contains(#[trigger] self.eps_targets(y)[jj])
                        || stack@.contains(self.eps_targets(y)[jj]) by {
                        if y == x {
                            assert(result@.contains(ets@[jj]) || stack@.contains(ets@[jj]));
                        }
                    }
                }
            } else {
                proof {
                    assert forall|y: u64, c: u64, jj: int|
                        result@.contains(y) && self.alphabet@.contains(c) && 0 <= jj
                            < self.step_targets(y, c).len() implies result@.contains(
                        #[trigger] self.step_targets(y, c)[jj],
                    ) || stack@.contains(self.step_targets(y, c)[jj]) by {
                        let t = self.step_targets(y, c)[jj];
                        if old_stack.contains(t) {
                            let m = choose|m: int| 0 <= m < old_stack.len() && old_stack[m] == t;
                            if m < old_stack.len() - 1 {
                                assert(stack@[m] == t);
                                assert(stack@.contains(t));
                            } else {
                                assert(t == x);
                            }
                        }
                    }
                    assert forall|y: u64, jj: int|
                        result@.contains(y) && 0 <= jj < self.eps_targets(y).len()
                            implies result@.contains(#[trigger] self.eps_targets(y)[jj])
                        || stack@.contains(self.eps_targets(y)[jj]) by {
                        let t = self.eps_targets(y)[jj];
                        if old_stack.contains(t) {
                            let m = choose|m: int| 0 <= m < old_stack.len() && old_stack[m] == t;
                            if m < old_stack.len() - 1 {
                                assert(stack@[m] == t);
                                assert(stack@.contains(t));
                            } else {
                                assert(t == x);
                            }
                        }
                    }
                    if !result@.contains(self.start_state) && old_stack.contains(
                        self.start_state,
                    ) {
                        let m = choose|m: int|
                            0 <= m < old_stack.len() && old_stack[m] == self.start_state;
                        if m < old_stack.len() - 1 {
                            assert(stack@[m] == self.start_state);
                            assert(stack@.contains(self.start_state));
                        } else {
                            assert(x == self.start_state);
                        }
                    }
                }
            }
        }
        proof {
            assert forall|x: u64| #[trigger] self.reach_state(x) implies result@.contains(x) by {
                let p = choose|p: Seq<u64>|
                    self.walk(p) && p.first() == self.start_state && p.last() == x;
                self.lemma_walk_in_closed(result@, p);
            }
        }
        result
    }
}

/// The target list `ts` rewritten to positions in the state list `rs`.
pub open spec fn pos_seq(rs: Seq<u64>, ts: Seq<u64>) -> Seq<u64> {
    ts.map_values(|t: u64| rs.index_of(t) as u64)
}

/// How a relabelled automaton `r` corresponds to the original `orig` through
/// the list `rs` of reachable original states: position `k` of `rs` becomes
/// state `k`, every table entry is carried over with its targets rewritten to
/// positions, and the start and accepting states correspond.
pub open spec fn relabel_rel(orig: Nfa, r: Nfa, rs: Seq<u64>) -> bool {
    &&& rs.no_duplicates()
    &&& forall|x: u64| #[trigger] rs.contains(x) <==> orig.reach_state(x)
    &&& forall|x: u64| #[trigger] rs.contains(x) ==> orig.states@.contains(x)
    &&& r.states@.len() == rs.len()
    &&& forall|m: int| 0 <= m < r.states@.len() ==> #[trigger] r.states@[m] == m as u64
    &&& r.alphabet@ == orig.alphabet@
    &&& (r.start_state as int) < rs.len()
    &&& rs[r.start_state as int] == orig.start_state
    &&& forall|ks: u64, c: u64|
        (ks as int) < rs.len() ==> ((#[trigger] ntable_has(r.transitions@, (ks, c))
            <==> ntable_has(orig.transitions@, (rs[ks as int], c))) && r.step_targets(ks, c)
            == pos_seq(rs, orig.step_targets(rs[ks as int], c)))
    &&& forall|ks: u64|
        (ks as int) < rs.len() ==> ((#[trigger] etable_has(r.epsilon_transitions@, ks)
            <==> etable_has(orig.epsilon_transitions@, rs[ks as int])) && r.eps_targets(ks)
            == pos_seq(rs, orig.eps_targets(rs[ks as int])))
    &&& forall|ks: u64|
        #[trigger] r.accepting@.contains(ks) <==> ((ks as int) < rs.len()
            && orig.accepting@.contains(rs[ks as int]))
}

impl Nfa {
    /// The targets of a reachable state are reachable, so they have positions
    /// in the reachable-state list.
    proof fn lemma_targets_reachable(self, rs: Seq<u64>, x: u64)
        requires
            self.wf(),
            forall|y: u64| #[trigger] rs.contains(y) <==> self.reach_state(y),
            rs.contains(x),
        ensures
            forall|c: u64, j: int|
                self.alphabet@.contains(c) && 0 <= j < self.step_targets(x, c).len()
                    ==> rs.contains(#[trigger] self.step_targets(x, c)[j]),
            forall|j: int|
                0 <= j < self.eps_targets(x).len() ==> rs.contains(
                    #[trigger] self.eps_targets(x)[j],
                ),
    {
        assert forall|c: u64, j: int|
            self.alphabet@.contains(c) && 0 <= j < self.step_targets(x, c).len()
                implies rs.contains(#[trigger] self.step_targets(x, c)[j]) by {
            let t = self.step_targets(x, c)[j];
            assert(self.edge_to(x, t)) by {
                assert(self.alphabet@.contains(c) && self.step_targets(x, c).contains(t));
            }
            self.lemma_walk_step(x, t);
        }
        assert forall|j: int| 0 <= j < self.eps_targets(x).len() implies rs.contains(
            #[trigger] self.eps_targets(x)[j],
        ) by {
            let t = self.eps_targets(x)[j];
            assert(self.eps_targets(x).contains(t));
            assert(self.edge_to(x, t));
            self.lemma_walk_step(x, t);
        }
    }

    /// The automaton restricted to its reachable states, renumbered densely
    /// as `0, 1, .., n - 1` in discovery order; tables, start and accepting
    /// states are carried over through the renumbering.
    #[verifier::rlimit(100)]
    #[verifier::spinoff_prover]
    pub fn relabel_states(&self) -> (r: Nfa)
        requires
            self.wf(),
        ensures
            r.wf(),
            exists|rs: Seq<u64>| #[trigger] relabel_rel(*self, r, rs),
            forall|w: Seq<u64>| (#[trigger] r.accepts(w)) == self.accepts(w),
    {
        let reach = self.reachable_states();
        let ghost rs = reach@;
        let n = reach.len();
        let alen = self.alphabet.len();
        let mut states: Vec<u64> = Vec::new();
        let mut k: usize = 0;
        while k < n
            invariant
                0 <= k <= n,
                states@.len() == k,
                forall|m: int| 0 <= m < k ==> #[trigger] states@[m] == m as u64,
            decreases n - k,
        {
            states.push(k as u64);
            k = k + 1;
        }
        proof {
            lemma_dense_members(states@);
        }
        let mut transitions: Vec<((u64, u64), Vec<u64>)> = Vec::new();
        let mut k: usize = 0;
        while k < n
            invariant
                0 <= k <= n,
                nkeys_distinct(transitions@),
                forall|m: int|
                    0 <= m < transitions@.len() ==> ((#[trigger] transitions@[m]).0.0 as int) < k
                        && self.alphabet@.contains(transitions@[m].0.1) && (forall|j: int|
                        0 <= j < transitions@[m].1@.len() ==> ((
                        #[trigger] transitions@[m].1@[j]) as int) < n),
                forall|ks: u64, c: u64|
                    #![trigger ntable_at(transitions@, (ks, c))]
                    #![trigger ntable_has(transitions@, (ks, c))]
                    (ks as int) < k ==> ((ntable_has(transitions@, (ks, c)) <==> ntable_has(
                        self.transitions@,
                        (rs[ks as int], c),
                    )) && ntable_at(transitions@, (ks, c)) == pos_seq(
                        rs,
                        self.step_targets(rs[ks as int], c),
                    )),
            decreases n - k,
        {
            let s = reach[k];
            proof {
                assert(rs.contains(rs[k as int]));
                self.lemma_targets_reachable(rs, s);
            }
            let mut a: usize = 0;
            while a < alen
                invariant
                    0 <= a <= alen,
                    k < n,
                    s == rs[k as int],
                    nkeys_distinct(transitions@),
                    forall|m: int|
                        0 <= m < transitions@.len() ==> ((#[trigger] transitions@[m]).0.0 as int)
                            <= k && self.alphabet@.contains(transitions@[m].0.1) && (forall|
                            j: int,
                        |
                            0 <= j < transitions@[m].1@.len() ==> ((
                            #[trigger] transitions@[m].1@[j]) as int) < n),
                    forall|m: int|
                        0 <= m < transitions@.len() && (transitions@[m].0.0 as int) == k
                            ==> exists|q: int|
                            0 <= q < a && (#[trigger] transitions@[m]).0.1 == self.alphabet@[q],
                    forall|ks: u64, c: u64|
                        #![trigger ntable_at(transitions@, (ks, c))]
                        #![trigger ntable_has(transitions@, (ks, c))]
                        (ks as int) < k ==> ((ntable_has(transitions@, (ks, c)) <==> ntable_has(
                            self.transitions@,
                            (rs[ks as int], c),
                        )) && ntable_at(transitions@, (ks, c)) == pos_seq(
                            rs,
                            self.step_targets(rs[ks as int], c),
                        )),
                    forall|q: int|
                        0 <= q < a ==> ((ntable_has(
                            transitions@,
                            ((k as u64), #[trigger] self.alphabet@[q]),
                        ) <==> ntable_has(self.transitions@, (rs[k as int], self.alphabet@[q])))
                            && ntable_at(transitions@, ((k as u64), self.alphabet@[q]))
                            == pos_seq(rs, self.step_targets(rs[k as int], self.alphabet@[q]))),
                decreases alen - a,
            {
                let c = self.alphabet[a];
                let ghost pre = transitions@;
                let entry_opt = self.transition(s, c);
                proof {
                    assert(self.alphabet@.contains(c));
                    if ntable_has(pre, ((k as u64), c)) {
                        let m = choose|m: int| 0 <= m < pre.len() && (#[trigger] pre[m]).0 == (
                        (k as u64),
                        c,
                        );
                        let q = choose|q: int| 0 <= q < a && pre[m].0.1 == self.alphabet@[q];
                        assert(self.alphabet@[q] == self.alphabet@[a as int]);
                        assert(false);
                    }
                }
                match entry_opt {
                    None => {
                        proof {
                            assert(self.step_targets(s, c) =~= Seq::<u64>::empty());
                            assert(pos_seq(rs, self.step_targets(s, c)) =~= Seq::<u64>::empty());
                            assert(!ntable_has(transitions@, ((k as u64), c)));
                            assert(ntable_at(transitions@, ((k as u64), c)) =~= Seq::<
                                u64,
                            >::empty());
                        }
                    },
                    Some(ts) => {
                        let mut v: Vec<u64> = Vec::new();
                        let mut j: usize = 0;
                        while j < ts.len()
                            invariant
                                0 <= j <= ts@.len(),
                                ts@ == self.step_targets(rs[k as int], self.alphabet@[a as int]),
                                k < n,
                                a < alen,
                                s == rs[k as int],
                                v@.len() == j,
                                forall|m: int|
                                    0 <= m < j ==> #[trigger] v@[m] == rs.index_of(ts@[m]) as u64
                                        && (v@[m] as int) < n,
                            decreases ts@.len() - j,
                        {
                            let t = ts[j];
                            proof {
                                assert(self.alphabet@.contains(self.alphabet@[a as int]));
                                assert(rs.contains(ts@[j as int]));
                            }
                            let p = position_of(&reach, t);
                            v.push(p as u64);
                            j = j + 1;
                        }
                        proof {
                            assert(v@ =~= pos_seq(rs, ts@));
                            lemma_ntable_push(pre, (((k as u64), c), v));
                        }
                        transitions.push((((k as u64), c), v));
                        proof {
                            assert forall|m: int|
                                0 <= m < transitions@.len() && (transitions@[m].0.0 as int)
                                    == k implies exists|q: int|
                                0 <= q < a + 1 && (#[trigger] transitions@[m]).0.1
                                    == self.alphabet@[q] by {
                                if m < pre.len() {
                                    assert(pre[m].0.0 as int == k);
                                    let q = choose|q: int|
                                        0 <= q < a && pre[m].0.1 == self.alphabet@[q];
                                    assert(transitions@[m].0.1 == self.alphabet@[q]);
                                } else {
                                    assert(transitions@[m].0.1 == self.alphabet@[a as int]);
                                }
                            }
                        }
                    },
                }
                a = a + 1;
            }
            proof {
                assert forall|ks: u64, c: u64|
                    #![trigger ntable_at(transitions@, (ks, c))]
                    #![trigger ntable_has(transitions@, (ks, c))]
                    (ks as int) < k + 1 implies ((ntable_has(transitions@, (ks, c))
                    <==> ntable_has(self.transitions@, (rs[ks as int], c))) && ntable_at(
                    transitions@,
                    (ks, c),
                ) == pos_seq(rs, self.step_targets(rs[ks as int], c))) by {
                    if (ks as int) == k {
                        if self.alphabet@.contains(c) {
                            let q = choose|q: int|
                                0 <= q < self.alphabet@.len() && self.alphabet@[q] == c;
                            assert(ntable_has(transitions@, ((k as u64), self.alphabet@[q]))
                                <==> ntable_has(
                                self.transitions@,
                                (rs[k as int], self.alphabet@[q]),
                            ));
                            assert(ntable_at(transitions@, ((k as u64), self.alphabet@[q]))
                                == pos_seq(
                                rs,
                                self.step_targets(rs[k as int], self.alphabet@[q]),
                            ));
                        } else {
                            if ntable_has(transitions@, (ks, c)) {
                                let m = choose|m: int|
                                    0 <= m < transitions@.len() && (
                                    #[trigger] transitions@[m]).0 == (ks, c);
                                assert(self.alphabet@.contains(transitions@[m].0.1));
                                assert(false);
                            }
                            if ntable_has(self.transitions@, (rs[ks as int], c)) {
                                let m = choose|m: int|
                                    0 <= m < self.transitions@.len() && (
                                    #[trigger] self.transitions@[m]).0 == (rs[ks as int], c);
                                assert(self.alphabet@.contains(self.transitions@[m].0.1));
                                assert(false);
                            }
                            assert(self.step_targets(rs[ks as int], c) =~= Seq::<u64>::empty());
                            assert(pos_seq(rs, self.step_targets(rs[ks as int], c)) =~= Seq::<
                                u64,
                            >::empty());
                            assert(ntable_at(transitions@, (ks, c)) =~= Seq::<u64>::empty());
                        }
                    }
                }
            }
            k = k + 1;
        }
        let mut eps: Vec<(u64, Vec<u64>)> = Vec::new();
        let mut k: usize = 0;
        while k < n
            invariant
                0 <= k <= n,
                ekeys_distinct(eps@),
                forall|m: int|
                    0 <= m < eps@.len() ==> ((#[trigger] eps@[m]).0 as int) < k && (forall|j: int|
                        0 <= j < eps@[m].1@.len() ==> ((#[trigger] eps@[m].1@[j]) as int) < n),
                forall|ks: u64|
                    #![trigger etable_at(eps@, ks)]
                    #![trigger etable_has(eps@, ks)]
                    (ks as int) < k ==> ((etable_has(eps@, ks) <==> etable_has(
                        self.epsilon_transitions@,
                        rs[ks as int],
                    )) && etable_at(eps@, ks) == pos_seq(rs, self.eps_targets(rs[ks as int]))),
            decreases n - k,
        {
            let s = reach[k];
            proof {
                assert(rs.contains(rs[k as int]));
                self.lemma_targets_reachable(rs, s);
            }
            let ghost pre = eps@;
            proof {
                if etable_has(pre, k as u64) {
                    let m = choose|m: int| 0 <= m < pre.len() && (#[trigger] pre[m]).0 == (
                    k as u64);
                    assert(false);
                }
            }
            match etable_lookup(&self.epsilon_transitions, s) {
                None => {
                    proof {
                        assert(self.eps_targets(s) =~= Seq::<u64>::empty());
                        assert(pos_seq(rs, self.eps_targets(s)) =~= Seq::<u64>::empty());
                        assert(!etable_has(eps@, k as u64));
                        assert(etable_at(eps@, k as u64) =~= Seq::<u64>::empty());
                    }
                },
                Some(ts) => {
                    let mut v: Vec<u64> = Vec::new();
                    let mut j: usize = 0;
                    while j < ts.len()
                        invariant
                            0 <= j <= ts@.len(),
                            ts@ == self.eps_targets(rs[k as int]),
                            k < n,
                            s == rs[k as int],
                            v@.len() == j,
                            forall|m: int|
                                0 <= m < j ==> #[trigger] v@[m] == rs.index_of(ts@[m]) as u64 && (
                                v@[m] as int) < n,
                        decreases ts@.len() - j,
                    {
                        let t = ts[j];
                        proof {
                            assert(rs.contains(ts@[j as int]));
                        }
                        let p = position_of(&reach, t);
                        v.push(p as u64);
                        j = j + 1;
                    }
                    proof {
                        assert(v@ =~= pos_seq(rs, ts@));
                        lemma_etable_push(pre, ((k as u64), v));
                    }
                    eps.push(((k as u64), v));
                },
            }
            proof {
                assert forall|ks: u64|
                    #![trigger etable_at(eps@, ks)]
                    #![trigger etable_has(eps@, ks)]
                    (ks as int) < k + 1 implies ((etable_has(eps@, ks) <==> etable_has(
                    self.epsilon_transitions@,
                    rs[ks as int],
                )) && etable_at(eps@, ks) == pos_seq(rs, self.eps_targets(rs[ks as int]))) by {
                    if (ks as int) < k {
                        assert(etable_has(eps@, ks) == etable_has(pre, ks));
                        assert(etable_at(eps@, ks) == etable_at(pre, ks));
                    }
                }
            }
            k = k + 1;
        }
        let mut accepting: Vec<u64> = Vec::new();
        let mut k: usize = 0;
        while k < n
            invariant
                0 <= k <= n,
                accepting@.no_duplicates(),
                forall|m: int| 0 <= m < accepting@.len() ==> ((#[trigger] accepting@[m]) as int) < k,
                forall|ks: u64|
                    (ks as int) < k ==> ((#[trigger] accepting@.contains(ks))
                        <==> self.accepting@.contains(rs[ks as int])),
            decreases n - k,
        {
            let ghost pre = accepting@;
            let isacc = vec_contains(&self.accepting, reach[k]);
            if isacc {
                accepting.push(k as u64);
            }
            proof {
                assert forall|ks: u64| (ks as int) < k + 1 implies (
                (#[trigger] accepting@.contains(ks)) <==> self.accepting@.contains(
                    rs[ks as int],
                )) by {
                    if (ks as int) < k {
                        if pre.contains(ks) {
                            let m = choose|m: int| 0 <= m < pre.len() && pre[m] == ks;
                            assert(accepting@[m] == ks);
                        }
                        if accepting@.contains(ks) {
                            let m = choose|m: int|
                                0 <= m < accepting@.len() && accepting@[m] == ks;
                            if m < pre.len() {
                                assert(pre.contains(ks));
                            } else {
                                assert(false);
                            }
                        }
                    } else {
                        if isacc {
                            assert(accepting@[pre.len() as int] == ks);
                        } else {
                            if accepting@.contains(ks) {
                                let m = choose|m: int|
                                    0 <= m < accepting@.len() && accepting@[m] == ks;
                                if m < pre.len() {
                                    assert((pre[m] as int) < k);
                                    assert(false);
                                }
                            }
                        }
                    }
                }
            }
            k = k + 1;
        }
        proof {
            self.lemma_walk_refl();
            assert(rs.contains(self.start_state));
        }
        let k0 = position_of(&reach, self.start_state);
        let r = Nfa {
            states,
            alphabet: crate::table::copy_values(&self.alphabet),
            start_state: k0 as u64,
            transitions,
            epsilon_transitions: eps,
            accepting,
        };
        proof {
            assert(r.states@[k0 as int] == k0 as u64);
            assert(r.states@.contains(r.start_state));
            assert forall|m1: int, m2: int| 0 <= m1 < m2 < r.states@.len() implies r.states@[m1]
                != r.states@[m2] by {
                assert(r.states@[m1] == m1 as u64 && r.states@[m2] == m2 as u64);
            }
            assert(r.states@.no_duplicates());
            assert forall|m: int| 0 <= m < r.transitions@.len() implies r.states@.contains(
                (#[trigger] r.transitions@[m]).0.0,
            ) && r.alphabet@.contains(r.transitions@[m].0.1) && (forall|j: int|
                0 <= j < r.transitions@[m].1@.len() ==> r.states@.contains(
                    #[trigger] r.transitions@[m].1@[j],
                )) by {
                assert((r.transitions@[m].0.0 as int) < n);
                assert(r.states@[r.transitions@[m].0.0 as int] == r.transitions@[m].0.0);
                assert forall|j: int| 0 <= j < r.transitions@[m].1@.len()
                    implies r.states@.contains(#[trigger] r.transitions@[m].1@[j]) by {
                    assert((r.transitions@[m].1@[j] as int) < n);
                    assert(r.states@[r.transitions@[m].1@[j] as int] == r.transitions@[m].1@[j]);
                }
            }
            assert forall|m: int| 0 <= m < r.epsilon_transitions@.len()
                implies r.states@.contains((#[trigger] r.epsilon_transitions@[m]).0) && (forall|
                j: int,
            |
                0 <= j < r.epsilon_transitions@[m].1@.len() ==> r.states@.contains(
                    #[trigger] r.epsilon_transitions@[m].1@[j],
                )) by {
                assert((r.epsilon_transitions@[m].0 as int) < n);
                assert(r.states@[r.epsilon_transitions@[m].0 as int]
                    == r.epsilon_transitions@[m].0);
                assert forall|j: int| 0 <= j < r.epsilon_transitions@[m].1@.len()
                    implies r.states@.contains(#[trigger] r.epsilon_transitions@[m].1@[j]) by {
                    assert((r.epsilon_transitions@[m].1@[j] as int) < n);
                    assert(r.states@[r.epsilon_transitions@[m].1@[j] as int]
                        == r.epsilon_transitions@[m].1@[j]);
                }
            }
            assert forall|a: u64| #[trigger] r.accepting@.contains(a) implies r.states@.contains(
                a,
            ) by {
                assert((a as int) < n);
                assert(r.states@[a as int] == a);
            }
            assert(r.wf());
            assert(rs[r.start_state as int] == self.start_state);
            assert(relabel_rel(*self, r, rs));
            assert(rs.len() == n);
            lemma_relabel_language(*self, r, rs);
        }
        r
    }
}

/// The positions in `rs` of the members of `x`.
pub open spec fn pos_img(rs: Seq<u64>, x: Set<u64>) -> Set<u64> {
    Set::new(|k: u64| (k as int) < rs.len() && x.contains(rs[k as int]))
}

impl Nfa {
    /// The end of an epsilon walk out of a reachable state is reachable.
    proof fn lemma_eps_path_reach(self, p: Seq<u64>)
        requires
            self.eps_path(p),
            self.reach_state(p.first()),
        ensures
            self.reach_state(p.last()),
        decreases p.len(),
    {
        if p.len() > 1 {
            assert(self.eps_targets(p[0]).contains(p[1]));
            assert(self.edge_to(p[0], p[1]));
            self.lemma_walk_step(p[0], p[1]);
            let p2 = p.drop_first();
            assert forall|i: int| 0 <= i < p2.len() - 1 implies self.eps_targets(
                #[trigger] p2[i],
            ).contains(p2[i + 1]) by {
                assert(p2[i] == p[i + 1] && p2[i + 1] == p[i + 2]);
                assert(self.eps_targets(p[i + 1]).contains(p[i + 2]));
            }
            assert(self.eps_path(p2));
            assert(p2.first() == p[1] && p2.last() == p.last());
            self.lemma_eps_path_reach(p2);
        }
    }

    /// The closure of a set of reachable states holds only reachable states.
    proof fn lemma_closure_reach(self, x: Set<u64>)
        requires
            forall|s: u64| x.contains(s) ==> #[trigger] self.reach_state(s),
        ensures
            forall|t: u64| self.closure_of(x).contains(t) ==> #[trigger] self.reach_state(t),
    {
        assert forall|t: u64| self.closure_of(x).contains(t) implies #[trigger] self.reach_state(
            t,
        ) by {
            let s = choose|s: u64| x.contains(s) && self.eps_reaches(s, t);
            let p = choose|p: Seq<u64>| self.eps_path(p) && p.first() == s && p.last() == t;
            self.lemma_eps_path_reach(p);
        }
    }

    /// One-symbol steps out of reachable states lead to reachable states.
    proof fn lemma_step_reach(self, x: Set<u64>, c: u64)
        requires
            self.wf(),
            forall|s: u64| x.contains(s) ==> #[trigger] self.reach_state(s),
        ensures
            forall|t: u64| self.step_set(x, c).contains(t) ==> #[trigger] self.reach_state(t),
    {
        assert forall|t: u64| self.step_set(x, c).contains(t) implies #[trigger] self.reach_state(
            t,
        ) by {
            let s = choose|s: u64| x.contains(s) && self.step_targets(s, c).contains(t);
            let m = choose|m: int|
                0 <= m < self.transitions@.len() && (#[trigger] self.transitions@[m]).0 == (s, c);
            assert(self.alphabet@.contains(c));
            assert(self.edge_to(s, t)) by {
                assert(self.alphabet@.contains(c) && self.step_targets(s, c).contains(t));
            }
            self.lemma_walk_step(s, t);
        }
    }
}

/// An epsilon walk of the original maps to an epsilon walk of the relabelled
/// automaton, through positions in the reachable-state list.
proof fn lemma_relabel_path_up(orig: Nfa, r: Nfa, rs: Seq<u64>, p: Seq<u64>)
    requires
        orig.wf(),
        relabel_rel(orig, r, rs),
        rs.len() <= usize::MAX,
        orig.eps_path(p),
        orig.reach_state(p.first()),
    ensures
        forall|i: int| 0 <= i < p.len() ==> rs.contains(#[trigger] p[i]),
        r.eps_reaches(
            rs.index_of(p.first()) as u64,
            rs.index_of(p.last()) as u64,
        ),
    decreases p.len(),
{
    assert(rs.contains(p.first()));
    crate::table::lemma_index_of_in(rs, p.first());
    if p.len() == 1 {
        r.lemma_eps_refl(rs.index_of(p.first()) as u64);
    } else {
        assert(orig.eps_targets(p[0]).contains(p[1]));
        assert(orig.edge_to(p[0], p[1]));
        orig.lemma_walk_step(p[0], p[1]);
        let p2 = p.drop_first();
        assert forall|i: int| 0 <= i < p2.len() - 1 implies orig.eps_targets(
            #[trigger] p2[i],
        ).contains(p2[i + 1]) by {
            assert(p2[i] == p[i + 1] && p2[i + 1] == p[i + 2]);
            assert(orig.eps_targets(p[i + 1]).contains(p[i + 2]));
        }
        assert(orig.eps_path(p2));
        assert(p2.first() == p[1] && p2.last() == p.last());
        lemma_relabel_path_up(orig, r, rs, p2);
        // bring the epsilon-table lookup into view so the correspondence applies
        let has_eps = etable_has(r.epsilon_transitions@, rs.index_of(p[0]) as u64);
        assert forall|i: int| 0 <= i < p.len() implies rs.contains(#[trigger] p[i]) by {
            if i > 0 {
                assert(p2[i - 1] == p[i]);
                assert(rs.contains(p2[i - 1]));
            }
        }
        // one relabelled epsilon edge from position of p[0] to position of p[1]
        let k0 = rs.index_of(p[0]);
        let k1 = rs.index_of(p[1]);
        crate::table::lemma_index_of_in(rs, p[1]);
        let j = choose|j: int|
            0 <= j < orig.eps_targets(p[0]).len() && orig.eps_targets(p[0])[j] == p[1];
        assert(k0 == rs.index_of(p[0]));
        assert(rs[k0] == p[0]);
        assert(r.eps_targets(k0 as u64) == pos_seq(rs, orig.eps_targets(rs[k0])));
        assert(r.eps_targets(k0 as u64)[j] == rs.index_of(orig.eps_targets(p[0])[j]) as u64);
        assert(r.eps_targets(k0 as u64).contains(k1 as u64));
        assert(r.eps_reaches(k1 as u64, rs.index_of(p.last()) as u64));
        // prepend the edge to the walk obtained for the rest
        let q = choose|q: Seq<u64>|
            r.eps_path(q) && q.first() == k1 as u64 && q.last() == rs.index_of(p.last()) as u64;
        let q2 = seq![k0 as u64] + q;
        assert forall|i: int| 0 <= i < q2.len() - 1 implies r.eps_targets(
            #[trigger] q2[i],
        ).contains(q2[i + 1]) by {
            if i == 0 {
                assert(q2[0] == k0 as u64 && q2[1] == q[0]);
                assert(q[0] == k1 as u64);
            } else {
                assert(q2[i] == q[i - 1] && q2[i + 1] == q[i]);
                assert(r.eps_targets(q[i - 1]).contains(q[i]));
            }
        }
        assert(q2.first() == k0 as u64 && q2.last() == q.last());
        assert(r.eps_path(q2));
        assert(r.eps_reaches(k0 as u64, rs.index_of(p.last()) as u64));
    }
}

/// An epsilon walk of the relabelled automaton maps back to an epsilon walk
/// of the original.
proof fn lemma_relabel_path_down(orig: Nfa, r: Nfa, rs: Seq<u64>, q: Seq<u64>)
    requires
        orig.wf(),
        relabel_rel(orig, r, rs),
        rs.len() <= usize::MAX,
        r.eps_path(q),
        (q.first() as int) < rs.len(),
    ensures
        forall|i: int| 0 <= i < q.len() ==> ((#[trigger] q[i]) as int) < rs.len(),
        orig.eps_reaches(rs[q.first() as int], rs[q.last() as int]),
    decreases q.len(),
{
    if q.len() == 1 {
        orig.lemma_eps_refl(rs[q.first() as int]);
    } else {
        assert(r.eps_targets(q[0]).contains(q[1]));
        // bring the epsilon-table lookup into view so the correspondence applies
        let has_eps = etable_has(r.epsilon_transitions@, q[0]);
        assert(r.eps_targets(q[0]) == pos_seq(rs, orig.eps_targets(rs[q[0] as int])));
        let j = choose|j: int|
            0 <= j < r.eps_targets(q[0]).len() && r.eps_targets(q[0])[j] == q[1];
        let t0 = orig.eps_targets(rs[q[0] as int])[j];
        assert(q[1] == rs.index_of(t0) as u64);
        assert(rs.contains(rs[q[0] as int]));
        assert(orig.reach_state(rs[q[0] as int]));
        assert(orig.edge_to(rs[q[0] as int], t0)) by {
            assert(orig.eps_targets(rs[q[0] as int]).contains(t0));
        }
        orig.lemma_walk_step(rs[q[0] as int], t0);
        assert(rs.contains(t0));
        crate::table::lemma_index_of_in(rs, t0);
        assert((q[1] as int) < rs.len() && rs[q[1] as int] == t0);
        let q2 = q.drop_first();
        assert forall|i: int| 0 <= i < q2.len() - 1 implies r.eps_targets(
            #[trigger] q2[i],
        ).contains(q2[i + 1]) by {
            assert(q2[i] == q[i + 1] && q2[i + 1] == q[i + 2]);
            assert(r.eps_targets(q[i + 1]).contains(q[i + 2]));
        }
        assert(r.eps_path(q2));
        assert(q2.first() == q[1] && q2.last() == q.last());
        lemma_relabel_path_down(orig, r, rs, q2);
        assert forall|i: int| 0 <= i < q.len() implies ((#[trigger] q[i]) as int) < rs.len() by {
            if i > 0 {
                assert(q2[i - 1] == q[i]);
            }
        }
        // extend the original walk by the first edge
        let p = choose|p: Seq<u64>|
            orig.eps_path(p) && p.first() == rs[q[1] as int] && p.last() == rs[q.last() as int];
        let p2 = seq![rs[q[0] as int]] + p;
        assert forall|i: int| 0 <= i < p2.len() - 1 implies orig.eps_targets(
            #[trigger] p2[i],
        ).contains(p2[i + 1]) by {
            if i == 0 {
                assert(p2[0] == rs[q[0] as int] && p2[1] == p[0]);
                assert(p[0] == t0);
            } else {
                assert(p2[i] == p[i - 1] && p2[i + 1] == p[i]);
                assert(orig.eps_targets(p[i - 1]).contains(p[i]));
            }
        }
        assert(p2.first() == rs[q[0] as int] && p2.last() == p.last());
        assert(orig.eps_path(p2));
    }
}

impl Nfa {
    /// Simulation keeps a set of reachable states reachable.
    proof fn lemma_sim_reach(self, x: Set<u64>, w: Seq<u64>)
        requires
            self.wf(),
            forall|s: u64| x.contains(s) ==> #[trigger] self.reach_state(s),
        ensures
            forall|t: u64|
                self.sim_from(x, w).contains(t) ==> #[trigger] self.reach_state(t),
        decreases w.len(),
    {
        if w.len() > 0 {
            self.lemma_step_reach(x, w.first());
            self.lemma_closure_reach(self.step_set(x, w.first()));
            self.lemma_sim_reach(self.closure_of(self.step_set(x, w.first())), w.drop_first());
        }
    }
}

/// The epsilon closure commutes with the position renaming of a relabelling.
proof fn lemma_relabel_closure(orig: Nfa, r: Nfa, rs: Seq<u64>, x: Set<u64>)
    requires
        orig.wf(),
        relabel_rel(orig, r, rs),
        rs.len() <= usize::MAX,
        forall|s: u64| x.contains(s) ==> #[trigger] orig.reach_state(s),
    ensures
        r.closure_of(pos_img(rs, x)) == pos_img(rs, orig.closure_of(x)),
{
    assert forall|t1: u64| r.closure_of(pos_img(rs, x)).contains(t1) implies pos_img(
        rs,
        orig.closure_of(x),
    ).contains(t1) by {
        let k = choose|k: u64| pos_img(rs, x).contains(k) && r.eps_reaches(k, t1);
        let q = choose|q: Seq<u64>| r.eps_path(q) && q.first() == k && q.last() == t1;
        lemma_relabel_path_down(orig, r, rs, q);
        assert(q[q.len() - 1] == t1);
        assert((t1 as int) < rs.len());
        assert(orig.eps_reaches(rs[k as int], rs[t1 as int]));
        assert(x.contains(rs[k as int]));
        assert(orig.closure_of(x).contains(rs[t1 as int]));
    }
    assert forall|t1: u64| pos_img(rs, orig.closure_of(x)).contains(t1) implies r.closure_of(
        pos_img(rs, x),
    ).contains(t1) by {
        let t0 = rs[t1 as int];
        let s0 = choose|s0: u64| x.contains(s0) && orig.eps_reaches(s0, t0);
        let p = choose|p: Seq<u64>| orig.eps_path(p) && p.first() == s0 && p.last() == t0;
        assert(orig.reach_state(s0));
        lemma_relabel_path_up(orig, r, rs, p);
        crate::table::lemma_index_of_unique(rs, t0, t1 as int);
        assert(rs.contains(s0));
        crate::table::lemma_index_of_in(rs, s0);
        let k = rs.index_of(s0);
        assert(pos_img(rs, x).contains(k as u64));
        assert(r.eps_reaches(k as u64, t1));
    }
    assert(r.closure_of(pos_img(rs, x)) =~= pos_img(rs, orig.closure_of(x)));
}

/// The one-symbol step commutes with the position renaming of a relabelling.
proof fn lemma_relabel_step(orig: Nfa, r: Nfa, rs: Seq<u64>, x: Set<u64>, c: u64)
    requires
        orig.wf(),
        relabel_rel(orig, r, rs),
        rs.len() <= usize::MAX,
        forall|s: u64| x.contains(s) ==> #[trigger] orig.reach_state(s),
    ensures
        r.step_set(pos_img(rs, x), c) == pos_img(rs, orig.step_set(x, c)),
{
    assert forall|t1: u64| r.step_set(pos_img(rs, x), c).contains(t1) implies pos_img(
        rs,
        orig.step_set(x, c),
    ).contains(t1) by {
        let k = choose|k: u64| pos_img(rs, x).contains(k) && r.step_targets(k, c).contains(t1);
        // bring the transition-table lookup into view so the correspondence applies
        let has_step = ntable_has(r.transitions@, (k, c));
        assert(r.step_targets(k, c) == pos_seq(rs, orig.step_targets(rs[k as int], c)));
        let j = choose|j: int|
            0 <= j < r.step_targets(k, c).len() && r.step_targets(k, c)[j] == t1;
        let t0 = orig.step_targets(rs[k as int], c)[j];
        assert(t1 == rs.index_of(t0) as u64);
        assert(orig.step_targets(rs[k as int], c).contains(t0));
        let m = choose|m: int|
            0 <= m < orig.transitions@.len() && (#[trigger] orig.transitions@[m]).0 == (
            rs[k as int],
            c,
            );
        assert(orig.alphabet@.contains(c));
        assert(orig.reach_state(rs[k as int]));
        assert(orig.edge_to(rs[k as int], t0)) by {
            assert(orig.alphabet@.contains(c) && orig.step_targets(rs[k as int], c).contains(t0));
        }
        orig.lemma_walk_step(rs[k as int], t0);
        assert(rs.contains(t0));
        crate::table::lemma_index_of_in(rs, t0);
        assert((t1 as int) == rs.index_of(t0) && rs[t1 as int] == t0);
        assert(orig.step_set(x, c).contains(t0));
    }
    assert forall|t1: u64| pos_img(rs, orig.step_set(x, c)).contains(t1) implies r.step_set(
        pos_img(rs, x),
        c,
    ).contains(t1) by {
        let t0 = rs[t1 as int];
        let s0 = choose|s0: u64| x.contains(s0) && orig.step_targets(s0, c).contains(t0);
        assert(orig.reach_state(s0));
        assert(rs.contains(s0));
        crate::table::lemma_index_of_in(rs, s0);
        let k = rs.index_of(s0);
        assert(pos_img(rs, x).contains(k as u64));
        // bring the transition-table lookup into view so the correspondence applies
        let has_step = ntable_has(r.transitions@, ((k as u64), c));
        assert(r.step_targets(k as u64, c) == pos_seq(rs, orig.step_targets(s0, c)));
        let j = choose|j: int|
            0 <= j < orig.step_targets(s0, c).len() && orig.step_targets(s0, c)[j] == t0;
        assert(r.step_targets(k as u64, c)[j] == rs.index_of(t0) as u64);
        crate::table::lemma_index_of_unique(rs, t0, t1 as int);
        assert(r.step_targets(k as u64, c).contains(t1));
    }
    assert(r.step_set(pos_img(rs, x), c) =~= pos_img(rs, orig.step_set(x, c)));
}

/// The whole simulation commutes with the position renaming of a relabelling.
proof fn lemma_relabel_sim(orig: Nfa, r: Nfa, rs: Seq<u64>, x: Set<u64>, w: Seq<u64>)
    requires
        orig.wf(),
        relabel_rel(orig, r, rs),
        rs.len() <= usize::MAX,
        forall|s: u64| x.contains(s) ==> #[trigger] orig.reach_state(s),
    ensures
        r.sim_from(pos_img(rs, x), w) == pos_img(rs, orig.sim_from(x, w)),
    decreases w.len(),
{
    if w.len() > 0 {
        let c = w.first();
        lemma_relabel_step(orig, r, rs, x, c);
        orig.lemma_step_reach(x, c);
        lemma_relabel_closure(orig, r, rs, orig.step_set(x, c));
        orig.lemma_closure_reach(orig.step_set(x, c));
        lemma_relabel_sim(
            orig,
            r,
            rs,
            orig.closure_of(orig.step_set(x, c)),
            w.drop_first(),
        );
        assert(r.closure_of(r.step_set(pos_img(rs, x), c)) == pos_img(
            rs,
            orig.closure_of(orig.step_set(x, c)),
        ));
    }
}

/// A relabelled automaton accepts exactly the words the original accepts.
pub proof fn lemma_relabel_language(orig: Nfa, r: Nfa, rs: Seq<u64>)
    requires
        orig.wf(),
        relabel_rel(orig, r, rs),
        rs.len() <= usize::MAX,
    ensures
        forall|w: Seq<u64>| (#[trigger] r.accepts(w)) == orig.accepts(w),
{
    orig.lemma_walk_refl();
    assert(Set::empty().insert(r.start_state) =~= pos_img(
        rs,
        Set::empty().insert(orig.start_state),
    )) by {
        assert forall|k: u64|
            pos_img(rs, Set::empty().insert(orig.start_state)).contains(k) implies k
            == r.start_state by {
            assert(rs[k as int] == orig.start_state);
            if (k as int) != r.start_state as int {
                assert(rs[k as int] == rs[r.start_state as int]);
                assert(false);
            }
        }
        assert(pos_img(rs, Set::empty().insert(orig.start_state)).contains(r.start_state));
    }
    assert forall|s: u64|
        Set::empty().insert(orig.start_state).contains(s) implies #[trigger] orig.reach_state(
        s,
    ) by {
        assert(s == orig.start_state);
    }
    lemma_relabel_closure(orig, r, rs, Set::empty().insert(orig.start_state));
    assert(r.start_set() == pos_img(rs, orig.start_set()));
    orig.lemma_closure_reach(Set::empty().insert(orig.start_state));
    assert forall|w: Seq<u64>| (#[trigger] r.accepts(w)) == orig.accepts(w) by {
        lemma_relabel_sim(orig, r, rs, orig.start_set(), w);
        let xw = orig.sim_from(orig.start_set(), w);
        assert(r.sim_from(r.start_set(), w) == pos_img(rs, xw));
        orig.lemma_sim_reach(orig.start_set(), w);
        if orig.accepts(w) {
            let a = choose|a: u64| xw.contains(a) && orig.accepting@.contains(a);
            assert(orig.reach_state(a));
            assert(rs.contains(a));
            crate::table::lemma_index_of_in(rs, a);
            let k = rs.index_of(a);
            assert(pos_img(rs, xw).contains(k as u64));
            assert(r.accepting@.contains(k as u64));
            assert(r.accepts(w));
        }
        if r.accepts(w) {
            let a1 = choose|a1: u64|
                pos_img(rs, xw).contains(a1) && r.accepting@.contains(a1);
            assert(xw.contains(rs[a1 as int]) && orig.accepting@.contains(rs[a1 as int]));
            assert(orig.accepts(w));
        }
    }
}

} // verus!
