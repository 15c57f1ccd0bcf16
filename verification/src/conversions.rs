//! Conversions between regular expressions, NFAs and DFAs.
//!
//! `dfa_to_nfa` lifts a DFA into an epsilon-free NFA; `nfa_to_dfa` is the
//! subset construction; `regex_to_nfa` is Thompson's construction with a
//! relabelling after every step; `regex_to_dfa` is the full pipeline.

#![verifier::loop_isolation(false)]
use vstd::prelude::*;
use vstd::set_lib::lemma_len_subset;
use crate::dfa::Dfa;
use crate::dfa::word_over;
use crate::nfa::Nfa;
use crate::nfa::relabel_rel;
use crate::regex::Regex;
use crate::regex::regex_over;
use crate::regex::regex_size;
use crate::table::dkeys_distinct;
use crate::table::dtable_get;
use crate::table::dtable_has;
use crate::table::lemma_dtable_push;
use crate::table::lemma_ntable_at;
use crate::table::ntable_has;
use crate::table::copy_values;
use crate::table::set_vec_equal;
use crate::table::vec_contains;

verus! {

/// Lift a DFA into an NFA: each transition target becomes a one-element
/// target list, there are no epsilon edges, everything else is copied.
pub fn dfa_to_nfa(dfa: &Dfa) -> (r: Nfa)
    requires
        dfa.wf(),
    ensures
        r.wf(),
        r.states@ == dfa.states@,
        r.alphabet@ == dfa.alphabet@,
        r.start_state == dfa.start_state,
        r.accepting@ == dfa.accepting@,
        r.epsilon_transitions@.len() == 0,
        forall|s: u64, c: u64|
            #[trigger] ntable_has(r.transitions@, (s, c)) == dtable_has(
                dfa.transitions@,
                (s, c),
            ),
        forall|s: u64, c: u64|
            dtable_has(dfa.transitions@, (s, c)) ==> #[trigger] r.step_targets(s, c) == seq![
                dtable_get(dfa.transitions@, (s, c)),
            ],
        forall|w: Seq<u64>|
            word_over(w, dfa.alphabet@) ==> (#[trigger] r.accepts(w)) == dfa.accepts(w),
{
    let mut transitions: Vec<((u64, u64), Vec<u64>)> = Vec::new();
    let mut i: usize = 0;
    while i < dfa.transitions.len()
        invariant
            0 <= i <= dfa.transitions@.len(),
            transitions@.len() == i,
            forall|m: int|
                0 <= m < i ==> (#[trigger] transitions@[m]).0 == dfa.transitions@[m].0
                    && transitions@[m].1@ == seq![dfa.transitions@[m].1],
        decreases dfa.transitions@.len() - i,
    {
        let mut v: Vec<u64> = Vec::new();
        v.push(dfa.transitions[i].1);
        proof {
            assert(v@ =~= seq![dfa.transitions@[i as int].1]);
        }
        transitions.push((dfa.transitions[i].0, v));
        i = i + 1;
    }
    let r = Nfa {
        states: copy_values(&dfa.states),
        alphabet: copy_values(&dfa.alphabet),
        start_state: dfa.start_state,
        transitions,
        epsilon_transitions: Vec::new(),
        accepting: copy_values(&dfa.accepting),
    };
    proof {
        assert forall|m1: int, m2: int| 0 <= m1 < m2 < r.transitions@.len() implies (
        #[trigger] r.transitions@[m1]).0 != (#[trigger] r.transitions@[m2]).0 by {
            assert((dfa.transitions@[m1]).0 != (dfa.transitions@[m2]).0);
        }
        assert forall|s: u64, c: u64| #[trigger] ntable_has(r.transitions@, (s, c))
            == dtable_has(dfa.transitions@, (s, c)) by {
            if ntable_has(r.transitions@, (s, c)) {
                let m = choose|m: int|
                    0 <= m < r.transitions@.len() && (#[trigger] r.transitions@[m]).0 == (s, c);
                assert(dfa.transitions@[m].0 == (s, c));
            }
            if dtable_has(dfa.transitions@, (s, c)) {
                let m = choose|m: int|
                    0 <= m < dfa.transitions@.len() && (#[trigger] dfa.transitions@[m]).0 == (
                    s,
                    c,
                    );
                assert(r.transitions@[m].0 == (s, c));
            }
        }
        assert forall|s: u64, c: u64| dtable_has(dfa.transitions@, (s, c))
            implies #[trigger] r.step_targets(s, c) == seq![
            dtable_get(dfa.transitions@, (s, c)),
        ] by {
            let m = choose|m: int|
                0 <= m < dfa.transitions@.len() && (#[trigger] dfa.transitions@[m]).0 == (s, c);
            crate::table::lemma_dtable_get(dfa.transitions@, (s, c), m);
            lemma_ntable_at(r.transitions@, (s, c), m);
        }
        assert forall|m: int| 0 <= m < r.transitions@.len() implies r.states@.contains(
            (#[trigger] r.transitions@[m]).0.0,
        ) && r.alphabet@.contains(r.transitions@[m].0.1) && (forall|j: int|
            0 <= j < r.transitions@[m].1@.len() ==> r.states@.contains(
                #[trigger] r.transitions@[m].1@[j],
            )) by {
            assert(dfa.states@.contains(dfa.transitions@[m].0.0));
            assert(dfa.alphabet@.contains(dfa.transitions@[m].0.1));
            assert forall|j: int| 0 <= j < r.transitions@[m].1@.len() implies r.states@.contains(
                #[trigger] r.transitions@[m].1@[j],
            ) by {
                assert(r.transitions@[m].1@[j] == dfa.transitions@[m].1);
                crate::table::lemma_dtable_get(dfa.transitions@, (dfa.transitions@[m].0), m);
                assert(dfa.states@.contains(dfa.transitions@[m].0.0) && dfa.alphabet@.contains(
                    dfa.transitions@[m].0.1,
                ));
                assert(dfa.has_trans(dfa.transitions@[m].0.0, dfa.transitions@[m].0.1));
                assert(dfa.trans_at(dfa.transitions@[m].0.0, dfa.transitions@[m].0.1)
                    == dfa.transitions@[m].1);
                assert(dfa.states@.contains(dfa.transitions@[m].1));
            }
        }
        assert(r.wf());
        assert forall|w: Seq<u64>| word_over(w, dfa.alphabet@) implies (#[trigger] r.accepts(w))
            == dfa.accepts(w) by {
            lemma_lift_sim(*dfa, r, dfa.start_state, w);
            r.lemma_closure_no_eps(Set::empty().insert(dfa.start_state));
            let e = dfa.run_from(dfa.start_state, w);
            dfa.lemma_run_in_states(dfa.start_state, w);
            assert(r.sim_from(r.start_set(), w) == Set::empty().insert(e));
            if dfa.accepting@.contains(e) {
                assert(r.sim_from(r.start_set(), w).contains(e) && r.accepting@.contains(e));
                assert(r.accepts(w));
            } else {
                if r.accepts(w) {
                    let x = choose|x: u64|
                        r.sim_from(r.start_set(), w).contains(x) && r.accepting@.contains(x);
                    assert(x == e);
                    assert(false);
                }
            }
        }
    }
    r
}

/// In the lifted automaton the simulation set is always the one-element set
/// holding the DFA's current state.
proof fn lemma_lift_sim(dfa: Dfa, r: Nfa, s: u64, w: Seq<u64>)
    requires
        dfa.wf(),
        r.epsilon_transitions@.len() == 0,
        forall|s2: u64, c: u64|
            #[trigger] ntable_has(r.transitions@, (s2, c)) == dtable_has(
                dfa.transitions@,
                (s2, c),
            ),
        forall|s2: u64, c: u64|
            dtable_has(dfa.transitions@, (s2, c)) ==> #[trigger] r.step_targets(s2, c) == seq![
                dtable_get(dfa.transitions@, (s2, c)),
            ],
        dfa.states@.contains(s),
        word_over(w, dfa.alphabet@),
    ensures
        r.sim_from(Set::empty().insert(s), w) == Set::empty().insert(dfa.run_from(s, w)),
    decreases w.len(),
{
    r.lemma_closure_no_eps(Set::empty().insert(s));
    if w.len() > 0 {
        let c = w.first();
        assert(dfa.alphabet@.contains(w[0]));
        assert(dfa.has_trans(s, c));
        let t = dfa.trans_at(s, c);
        assert(r.step_targets(s, c) == seq![t]);
        assert(r.step_set(Set::empty().insert(s), c) =~= Set::empty().insert(t)) by {
            assert(r.step_targets(s, c)[0] == t);
            assert(r.step_targets(s, c).contains(t));
            assert(Set::empty().insert(s).contains(s));
            assert(r.step_set(Set::empty().insert(s), c).contains(t));
            assert forall|x: u64| r.step_set(Set::empty().insert(s), c).contains(x) implies x
                == t by {
                let s2 = choose|s2: u64|
                    Set::empty().insert(s).contains(s2) && r.step_targets(s2, c).contains(x);
                assert(s2 == s);
                let j = choose|j: int|
                    0 <= j < r.step_targets(s, c).len() && r.step_targets(s, c)[j] == x;
            }
        }
        r.lemma_closure_no_eps(Set::empty().insert(t));
        assert(dfa.states@.contains(t));
        crate::dfa::lemma_word_over_drop_first(w, dfa.alphabet@);
        lemma_lift_sim(dfa, r, t, w.drop_first());
        assert(r.sim_from(Set::empty().insert(s), w) == r.sim_from(
            Set::empty().insert(t),
            w.drop_first(),
        ));
    }
}

/// The set of all subsets of `s`.
pub open spec fn subsets_of(s: Set<u64>) -> Set<Set<u64>> {
    Set::new(|t: Set<u64>| t.subset_of(s))
}

/// A finite set has finitely many subsets.
pub proof fn lemma_subsets_of_finite(s: Set<u64>)
    requires
        s.finite(),
    ensures
        subsets_of(s).finite(),
    decreases s.len(),
{
    if s.is_empty() {
        assert forall|t: Set<u64>| subsets_of(s).contains(t) implies t == Set::<u64>::empty() by {
            assert(t =~= Set::<u64>::empty());
        }
        assert(subsets_of(s) =~= Set::<Set<u64>>::empty().insert(Set::<u64>::empty()));
    } else {
        let x = s.choose();
        let s0 = s.remove(x);
        lemma_subsets_of_finite(s0);
        let mapped = subsets_of(s0).map(|t: Set<u64>| t.insert(x));
        subsets_of(s0).lemma_map_finite(|t: Set<u64>| t.insert(x));
        assert(subsets_of(s) =~= subsets_of(s0).union(mapped)) by {
            assert forall|t: Set<u64>| subsets_of(s).contains(t) implies subsets_of(s0).union(
                mapped,
            ).contains(t) by {
                if t.contains(x) {
                    let t0 = t.remove(x);
                    assert(t0.subset_of(s0));
                    assert(subsets_of(s0).contains(t0));
                    assert(t0.insert(x) =~= t);
                    assert(mapped.contains(t));
                } else {
                    assert(t.subset_of(s0));
                }
            }
            assert forall|t: Set<u64>| subsets_of(s0).union(mapped).contains(t)
                implies subsets_of(s).contains(t) by {
                if subsets_of(s0).contains(t) {
                    assert(t.subset_of(s));
                } else {
                    let t0 = choose|t0: Set<u64>|
                        subsets_of(s0).contains(t0) && t == t0.insert(x);
                    assert(t.subset_of(s));
                }
            }
        }
    }
}


/// Following the table `t` from `s` along the word `w` is defined at every
/// step and ends in `e`.
pub open spec fn table_runs_to(t: Seq<((u64, u64), u64)>, s: u64, w: Seq<u64>, e: u64) -> bool
    decreases w.len(),
{
    if w.len() == 0 {
        s == e
    } else {
        dtable_has(t, (s, w.first())) && table_runs_to(
            t,
            dtable_get(t, (s, w.first())),
            w.drop_first(),
            e,
        )
    }
}

/// Is the state `ks` reached from state `0` by some word over `alpha`
/// whose run the table `t` defines throughout?
pub open spec fn tbl_reached(t: Seq<((u64, u64), u64)>, alpha: Seq<u64>, ks: u64) -> bool {
    exists|w: Seq<u64>| word_over(w, alpha) && table_runs_to(t, 0u64, w, ks)
}

/// A defined run survives extending the table, as long as present keys keep
/// their values.
proof fn lemma_runs_to_extend(
    t1: Seq<((u64, u64), u64)>,
    t2: Seq<((u64, u64), u64)>,
    s: u64,
    w: Seq<u64>,
    e: u64,
)
    requires
        table_runs_to(t1, s, w, e),
        forall|k: (u64, u64)|
            #[trigger] dtable_has(t1, k) ==> dtable_has(t2, k) && dtable_get(t2, k)
                == dtable_get(t1, k),
    ensures
        table_runs_to(t2, s, w, e),
    decreases w.len(),
{
    if w.len() > 0 {
        lemma_runs_to_extend(t1, t2, dtable_get(t1, (s, w.first())), w.drop_first(), e);
    }
}

/// A defined run extends by one symbol whose key the table holds.
proof fn lemma_runs_to_snoc(t: Seq<((u64, u64), u64)>, s: u64, w: Seq<u64>, e: u64, c: u64)
    requires
        table_runs_to(t, s, w, e),
        dtable_has(t, (e, c)),
    ensures
        table_runs_to(t, s, w.push(c), dtable_get(t, (e, c))),
    decreases w.len(),
{
    if w.len() == 0 {
        assert(w.push(c).first() == c);
        assert(w.push(c).drop_first() =~= Seq::<u64>::empty());
        assert(s == e);
        assert(table_runs_to(
            t,
            dtable_get(t, (e, c)),
            Seq::<u64>::empty(),
            dtable_get(t, (e, c)),
        ));
    } else {
        assert(w.push(c).first() == w.first());
        assert(w.push(c).drop_first() =~= w.drop_first().push(c));
        lemma_runs_to_snoc(t, dtable_get(t, (s, w.first())), w.drop_first(), e, c);
    }
}

/// A run the table defines is the automaton's run over that table.
proof fn lemma_runs_to_run(r: Dfa, s: u64, w: Seq<u64>, e: u64)
    requires
        table_runs_to(r.transitions@, s, w, e),
    ensures
        r.run_from(s, w) == e,
    decreases w.len(),
{
    if w.len() > 0 {
        lemma_runs_to_run(r, dtable_get(r.transitions@, (s, w.first())), w.drop_first(), e);
    }
}

/// How a subset-construction DFA `r` corresponds to the NFA `nfa` through the
/// sequence `vs` of state sets its identifiers stand for: identifier `k`
/// stands for the distinct set `vs[k]`, identifier `0` for the epsilon
/// closure of the start state, each transition leads to the identifier of the
/// closure of the one-symbol step, an identifier accepts exactly when its set
/// meets the NFA's accepting states, and every identifier is reachable.
pub open spec fn subset_rel(nfa: Nfa, r: Dfa, vs: Seq<Set<u64>>) -> bool {
    &&& vs.len() == r.states@.len()
    &&& vs.len() >= 1
    &&& forall|i: int, j: int| 0 <= i < j < vs.len() ==> #[trigger] vs[i] != #[trigger] vs[j]
    &&& r.start_state == 0u64
    &&& vs[0] == nfa.start_set()
    &&& forall|ks: u64, c: u64|
        #![trigger r.trans_at(ks, c)]
        #![trigger r.has_trans(ks, c)]
        (ks as int) < vs.len() && nfa.alphabet@.contains(c) ==> r.has_trans(ks, c) && (r.trans_at(
            ks,
            c,
        ) as int) < vs.len() && vs[r.trans_at(ks, c) as int] == nfa.closure_of(
            nfa.step_set(vs[ks as int], c),
        )
    &&& forall|ks: u64|
        #[trigger] r.accepting@.contains(ks) <==> ((ks as int) < vs.len() && (exists|a: u64|
            vs[ks as int].contains(a) && nfa.accepting@.contains(a)))
    &&& forall|ks: u64| (ks as int) < vs.len() ==> #[trigger] r.reaches(ks)
}

/// The sequence of state sets that the identifiers of a subset-construction
/// DFA stand for.
pub open spec fn subset_views(subsets: Seq<Vec<u64>>) -> Seq<Set<u64>> {
    subsets.map_values(|v: Vec<u64>| v@.to_set())
}

/// In the subset-construction DFA, running from the state numbered `k` lands
/// on the number of the simulation set reached from the `k`-th subset.
proof fn lemma_subset_run(nfa: Nfa, r: Dfa, vs: Seq<Set<u64>>, k: int, w: Seq<u64>)
    requires
        word_over(w, nfa.alphabet@),
        0 <= k < vs.len(),
        forall|ks: u64, c: u64|
            #![trigger dtable_get(r.transitions@, (ks, c))]
            #![trigger dtable_has(r.transitions@, (ks, c))]
            (ks as int) < vs.len() && nfa.alphabet@.contains(c) ==> dtable_has(
                r.transitions@,
                (ks, c),
            ) && (dtable_get(r.transitions@, (ks, c)) as int) < vs.len() && vs[dtable_get(
                r.transitions@,
                (ks, c),
            ) as int] == nfa.closure_of(nfa.step_set(vs[ks as int], c)),
        vs.len() <= usize::MAX,
    ensures
        (r.run_from(k as u64, w) as int) < vs.len(),
        vs[r.run_from(k as u64, w) as int] == nfa.sim_from(vs[k], w),
    decreases w.len(),
{
    if w.len() > 0 {
        let c = w.first();
        assert(nfa.alphabet@.contains(w[0]));
        let e = dtable_get(r.transitions@, ((k as u64), c));
        assert(r.trans_at(k as u64, c) == e);
        crate::dfa::lemma_word_over_drop_first(w, nfa.alphabet@);
        lemma_subset_run(nfa, r, vs, e as int, w.drop_first());
    }
}

/// The subset (powerset) construction: the DFA whose states stand for the
/// sets of NFA states the simulation can be in, discovered from the epsilon
/// closure of the start state; it accepts exactly the words the NFA accepts.
#[verifier::rlimit(100)]
#[verifier::spinoff_prover]
pub fn nfa_to_dfa(nfa: &Nfa) -> (r: Dfa)
    requires
        nfa.wf(),
    ensures
        r.wf(),
        r.alphabet@ == nfa.alphabet@,
        forall|m: int| 0 <= m < r.states@.len() ==> #[trigger] r.states@[m] == m as u64,
        exists|vs: Seq<Set<u64>>| #[trigger] subset_rel(*nfa, r, vs),
        forall|w: Seq<u64>|
            word_over(w, nfa.alphabet@) ==> (#[trigger] r.accepts(w)) == nfa.accepts(w),
{
    let alen = nfa.alphabet.len();
    let mut seed: Vec<u64> = Vec::new();
    seed.push(nfa.start_state);
    proof {
        assert(seed@.len() == 1 && seed@[0] == nfa.start_state);
        assert(seed@.contains(nfa.start_state));
        assert forall|x: u64| seed@.contains(x) implies x == nfa.start_state by {
            let m = choose|m: int| 0 <= m < seed@.len() && seed@[m] == x;
        }
        assert(seed@.to_set() =~= Set::empty().insert(nfa.start_state));
    }
    let first = nfa.epsilon_closure(&seed);
    let mut subsets: Vec<Vec<u64>> = Vec::new();
    subsets.push(first);
    let ghost pset = subsets_of(nfa.states@.to_set());
    proof {
        vstd::seq_lib::seq_to_set_is_finite::<u64>(nfa.states@);
        lemma_subsets_of_finite(nfa.states@.to_set());
        assert(subset_views(subsets@)[0] =~= nfa.start_set());
        assert(subset_views(subsets@).len() == 1);
        assert(subset_views(subsets@)[0].subset_of(nfa.states@.to_set())) by {
            assert forall|x: u64| subset_views(subsets@)[0].contains(x)
                implies nfa.states@.to_set().contains(x) by {
                assert(first@.contains(x));
            }
        }
        assert(pset.contains(subset_views(subsets@)[0]));
        assert(subsets@.len() <= pset.len()) by {
            assert(Set::<Set<u64>>::empty().insert(subset_views(subsets@)[0]).subset_of(pset));
            lemma_len_subset(
                Set::<Set<u64>>::empty().insert(subset_views(subsets@)[0]),
                pset,
            );
        }
    }
    let mut transitions: Vec<((u64, u64), u64)> = Vec::new();
    let mut accepting: Vec<u64> = Vec::new();
    let mut next: usize = 0;
    proof {
        assert(table_runs_to(transitions@, 0u64, Seq::<u64>::empty(), 0u64));
        assert(word_over(Seq::<u64>::empty(), nfa.alphabet@));
        assert(tbl_reached(transitions@, nfa.alphabet@, 0u64));
        assert forall|ks: u64| (ks as int) < subsets@.len() implies #[trigger] tbl_reached(
            transitions@,
            nfa.alphabet@,
            ks,
        ) by {
            assert(ks == 0u64);
        }
    }
    while next < subsets.len()
        invariant
            0 <= next <= subsets@.len(),
            1 <= subsets@.len(),
            subsets@.len() <= pset.len(),
            pset == subsets_of(nfa.states@.to_set()),
            pset.finite(),
            forall|i: int|
                0 <= i < subsets@.len() ==> (#[trigger] subsets@[i])@.no_duplicates() && (forall|
                    x: u64,
                | subsets@[i]@.contains(x) ==> nfa.states@.contains(x)),
            forall|i: int, j: int|
                0 <= i < j < subsets@.len() ==> #[trigger] subset_views(subsets@)[i]
                    != #[trigger] subset_views(subsets@)[j],
            subset_views(subsets@)[0] == nfa.start_set(),
            dkeys_distinct(transitions@),
            forall|m: int|
                0 <= m < transitions@.len() ==> ((#[trigger] transitions@[m]).0.0 as int) < next
                    && nfa.alphabet@.contains(transitions@[m].0.1) && ((transitions@[m].1 as int)
                    < subsets@.len()),
            forall|ks: u64, c: u64|
                #![trigger dtable_get(transitions@, (ks, c))]
                #![trigger dtable_has(transitions@, (ks, c))]
                (ks as int) < next && nfa.alphabet@.contains(c) ==> dtable_has(
                    transitions@,
                    (ks, c),
                ) && (dtable_get(transitions@, (ks, c)) as int) < subsets@.len() && subset_views(
                    subsets@,
                )[dtable_get(transitions@, (ks, c)) as int] == nfa.closure_of(
                    nfa.step_set(subset_views(subsets@)[ks as int], c),
                ),
            accepting@.no_duplicates(),
            forall|m: int| 0 <= m < accepting@.len() ==> ((#[trigger] accepting@[m]) as int) < next,
            forall|ks: u64|
                (ks as int) < next ==> ((#[trigger] accepting@.contains(ks)) <==> (exists|a: u64|
                    subset_views(subsets@)[ks as int].contains(a) && nfa.accepting@.contains(a))),
            forall|ks: u64|
                (ks as int) < subsets@.len() ==> #[trigger] tbl_reached(
                    transitions@,
                    nfa.alphabet@,
                    ks,
                ),
        decreases 2 * pset.len() - subsets@.len() - next,
    {
        let cur = crate::table::copy_values(&subsets[next]);
        let ghost entry_subsets = subsets@;
        let mut a: usize = 0;
        while a < alen
            invariant
                0 <= a <= alen,
                next < subsets@.len(),
                next < entry_subsets.len(),
                cur@ == subsets@[next as int]@,
                subsets@.len() >= entry_subsets.len(),
                forall|i: int|
                    0 <= i < entry_subsets.len() ==> #[trigger] subsets@[i] == entry_subsets[i],
                subsets@.len() <= pset.len(),
                forall|i: int|
                    0 <= i < subsets@.len() ==> (#[trigger] subsets@[i])@.no_duplicates() && (
                    forall|x: u64| subsets@[i]@.contains(x) ==> nfa.states@.contains(x)),
                forall|i: int, j: int|
                    0 <= i < j < subsets@.len() ==> #[trigger] subset_views(subsets@)[i]
                        != #[trigger] subset_views(subsets@)[j],
                subset_views(subsets@)[0] == nfa.start_set(),
                dkeys_distinct(transitions@),
                forall|m: int|
                    0 <= m < transitions@.len() ==> ((#[trigger] transitions@[m]).0.0 as int)
                        <= next && nfa.alphabet@.contains(transitions@[m].0.1) && ((
                    transitions@[m].1 as int) < subsets@.len()),
                forall|m: int|
                    0 <= m < transitions@.len() && (transitions@[m].0.0 as int) == next ==> exists|
                        q: int,
                    | 0 <= q < a && (#[trigger] transitions@[m]).0.1 == nfa.alphabet@[q],
                forall|ks: u64, c: u64|
                    #![trigger dtable_get(transitions@, (ks, c))]
                    #![trigger dtable_has(transitions@, (ks, c))]
                    (ks as int) < next && nfa.alphabet@.contains(c) ==> dtable_has(
                        transitions@,
                        (ks, c),
                    ) && (dtable_get(transitions@, (ks, c)) as int) < subsets@.len()
                        && subset_views(subsets@)[dtable_get(transitions@, (ks, c)) as int]
                        == nfa.closure_of(nfa.step_set(subset_views(subsets@)[ks as int], c)),
                forall|q: int|
                    0 <= q < a ==> dtable_has(
                        transitions@,
                        ((next as u64), #[trigger] nfa.alphabet@[q]),
                    ) && (dtable_get(transitions@, ((next as u64), nfa.alphabet@[q])) as int)
                        < subsets@.len() && subset_views(subsets@)[dtable_get(
                        transitions@,
                        ((next as u64), nfa.alphabet@[q]),
                    ) as int] == nfa.closure_of(
                        nfa.step_set(subset_views(subsets@)[next as int], nfa.alphabet@[q]),
                    ),
                forall|ks: u64|
                    (ks as int) < subsets@.len() ==> #[trigger] tbl_reached(
                        transitions@,
                        nfa.alphabet@,
                        ks,
                    ),
            decreases alen - a,
        {
            let c = nfa.alphabet[a];
            proof {
                assert(nfa.alphabet@.contains(c));
            }
            // one symbol step out of the current subset
            let mut imm: Vec<u64> = Vec::new();
            let mut si: usize = 0;
            while si < cur.len()
                invariant
                    0 <= si <= cur@.len(),
                    imm@.no_duplicates(),
                    forall|x: u64| #[trigger] imm@.contains(x) ==> nfa.states@.contains(x),
                    forall|x: u64|
                        #[trigger] imm@.contains(x) <==> exists|p: int|
                            0 <= p < si && nfa.step_targets(cur@[p], c).contains(x),
                decreases cur@.len() - si,
            {
                match nfa.transition(cur[si], c) {
                    None => {
                        proof {
                            assert(nfa.step_targets(cur@[si as int], c) =~= Seq::<u64>::empty());
                            assert forall|x: u64| #[trigger] imm@.contains(x) implies exists|
                                p: int,
                            | 0 <= p < si + 1 && nfa.step_targets(cur@[p], c).contains(x) by {
                                let p = choose|p: int|
                                    0 <= p < si && nfa.step_targets(cur@[p], c).contains(x);
                                assert(0 <= p < si + 1 && nfa.step_targets(cur@[p], c).contains(
                                    x,
                                ));
                            }
                            assert forall|x: u64|
                                (exists|p: int|
                                    0 <= p < si + 1 && nfa.step_targets(cur@[p], c).contains(
                                        x,
                                    )) implies #[trigger] imm@.contains(x) by {
                                let p = choose|p: int|
                                    0 <= p < si + 1 && nfa.step_targets(cur@[p], c).contains(x);
                                assert(p < si);
                            }
                        }
                    },
                    Some(ts) => {
                        proof {
                            nfa.lemma_step_targets_in_states(cur@[si as int], c);
                        }
                        let mut j: usize = 0;
                        while j < ts.len()
                            invariant
                                0 <= j <= ts@.len(),
                                ts@ == nfa.step_targets(cur@[si as int], c),
                                si < cur@.len(),
                                imm@.no_duplicates(),
                                forall|x: u64|
                                    #[trigger] imm@.contains(x) ==> nfa.states@.contains(x),
                                forall|x: u64|
                                    #[trigger] imm@.contains(x) <==> ((exists|p: int|
                                        0 <= p < si && nfa.step_targets(cur@[p], c).contains(x))
                                        || (exists|q: int| 0 <= q < j && ts@[q] == x)),
                            decreases ts@.len() - j,
                        {
                            let t = ts[j];
                            let ghost pre = imm@;
                            if !vec_contains(&imm, t) {
                                imm.push(t);
                            }
                            proof {
                                if !pre.contains(t) {
                                    assert(imm@[pre.len() as int] == t);
                                }
                                assert(imm@.contains(t));
                                assert forall|x: u64| #[trigger] imm@.contains(x) implies ((
                                exists|p: int|
                                    0 <= p < si && nfa.step_targets(cur@[p], c).contains(x)) || (
                                exists|q: int| 0 <= q < j + 1 && ts@[q] == x)) by {
                                    let m = choose|m: int| 0 <= m < imm@.len() && imm@[m] == x;
                                    if m < pre.len() {
                                        assert(pre[m] == x);
                                        assert(pre.contains(x));
                                    } else {
                                        assert(x == t);
                                        assert(ts@[j as int] == x);
                                    }
                                }
                                assert forall|x: u64|
                                    ((exists|p: int|
                                        0 <= p < si && nfa.step_targets(cur@[p], c).contains(x))
                                        || (exists|q: int|
                                        0 <= q < j + 1 && ts@[q] == x)) implies #[trigger] imm@.contains(
                                    x,
                                ) by {
                                    if exists|q: int| 0 <= q < j + 1 && ts@[q] == x {
                                        let q = choose|q: int| 0 <= q < j + 1 && ts@[q] == x;
                                        if q < j {
                                            assert(pre.contains(x));
                                            let m = choose|m: int|
                                                0 <= m < pre.len() && pre[m] == x;
                                            assert(imm@[m] == x);
                                        } else {
                                            assert(x == t);
                                        }
                                    } else {
                                        assert(pre.contains(x));
                                        let m = choose|m: int| 0 <= m < pre.len() && pre[m] == x;
                                        assert(imm@[m] == x);
                                    }
                                }
                            }
                            j = j + 1;
                        }
                        proof {
                            assert forall|x: u64| #[trigger] imm@.contains(x) implies exists|
                                p: int,
                            | 0 <= p < si + 1 && nfa.step_targets(cur@[p], c).contains(x) by {
                                if exists|p: int|
                                    0 <= p < si && nfa.step_targets(cur@[p], c).contains(x) {
                                    let p = choose|p: int|
                                        0 <= p < si && nfa.step_targets(cur@[p], c).contains(x);
                                    assert(0 <= p < si + 1 && nfa.step_targets(
                                        cur@[p],
                                        c,
                                    ).contains(x));
                                } else {
                                    let q = choose|q: int| 0 <= q < ts@.len() && ts@[q] == x;
                                    assert(nfa.step_targets(cur@[si as int], c).contains(x));
                                }
                            }
                            assert forall|x: u64|
                                (exists|p: int|
                                    0 <= p < si + 1 && nfa.step_targets(cur@[p], c).contains(
                                        x,
                                    )) implies #[trigger] imm@.contains(x) by {
                                let p = choose|p: int|
                                    0 <= p < si + 1 && nfa.step_targets(cur@[p], c).contains(x);
                                if p == si as int {
                                    let q = choose|q: int| 0 <= q < ts@.len() && ts@[q] == x;
                                }
                            }
                        }
                    },
                }
                si = si + 1;
            }
            proof {
                assert forall|j: int| 0 <= j < imm@.len() implies nfa.states@.contains(
                    #[trigger] imm@[j],
                ) by {
                    assert(imm@.contains(imm@[j]));
                }
            }
            let tvec = nfa.epsilon_closure(&imm);
            let ghost tset = nfa.closure_of(nfa.step_set(subset_views(subsets@)[next as int], c));
            proof {
                assert(imm@.to_set() =~= nfa.step_set(subset_views(subsets@)[next as int], c)) by {
                    assert forall|x: u64| imm@.to_set().contains(x) implies nfa.step_set(
                        subset_views(subsets@)[next as int],
                        c,
                    ).contains(x) by {
                        assert(imm@.contains(x));
                        let p = choose|p: int|
                            0 <= p < cur@.len() && nfa.step_targets(cur@[p], c).contains(x);
                        assert(cur@.contains(cur@[p]));
                        assert(subset_views(subsets@)[next as int].contains(cur@[p]));
                    }
                    assert forall|x: u64|
                        nfa.step_set(subset_views(subsets@)[next as int], c).contains(x)
                            implies imm@.to_set().contains(x) by {
                        let s = choose|s: u64|
                            subset_views(subsets@)[next as int].contains(s) && nfa.step_targets(
                                s,
                                c,
                            ).contains(x);
                        assert(cur@.contains(s));
                        let p = choose|p: int| 0 <= p < cur@.len() && cur@[p] == s;
                        assert(0 <= p < cur@.len() && nfa.step_targets(cur@[p], c).contains(x));
                        assert(imm@.contains(x));
                    }
                }
                assert(tvec@.to_set() =~= tset) by {
                    assert forall|x: u64| tvec@.to_set().contains(x) implies tset.contains(x) by {
                        assert(tvec@.contains(x));
                    }
                    assert forall|x: u64| tset.contains(x) implies tvec@.to_set().contains(x) by {
                        assert(nfa.closure_of(imm@.to_set()).contains(x));
                        assert(tvec@.contains(x));
                    }
                }
            }
            // find the subset's identifier, registering it if new
            let mut tid: usize = 0;
            let mut found: bool = false;
            let mut i: usize = 0;
            while i < subsets.len()
                invariant
                    0 <= i <= subsets@.len(),
                    !found ==> forall|m: int|
                        0 <= m < i ==> #[trigger] subset_views(subsets@)[m] != tvec@.to_set(),
                    found ==> (tid < subsets@.len() && subset_views(subsets@)[tid as int]
                        == tvec@.to_set()),
                decreases subsets@.len() - i,
            {
                if !found {
                    if set_vec_equal(&subsets[i], &tvec) {
                        found = true;
                        tid = i;
                    }
                }
                i = i + 1;
            }
            let ghost pre_subsets = subsets@;
            if !found {
                tid = subsets.len();
                subsets.push(tvec);
                proof {
                    assert(subset_views(subsets@).len() == pre_subsets.len() + 1);
                    assert forall|m: int| 0 <= m < pre_subsets.len()
                        implies #[trigger] subsets@[m] == pre_subsets[m] by {}
                    assert(subset_views(subsets@)[pre_subsets.len() as int] == tvec@.to_set());
                    assert forall|i2: int, j2: int| 0 <= i2 < j2 < subsets@.len()
                        implies #[trigger] subset_views(subsets@)[i2] != #[trigger] subset_views(
                        subsets@,
                    )[j2] by {
                        if j2 < pre_subsets.len() {
                            assert(subset_views(pre_subsets)[i2] != subset_views(
                                pre_subsets,
                            )[j2]);
                            assert(subset_views(subsets@)[i2] == subset_views(pre_subsets)[i2]);
                            assert(subset_views(subsets@)[j2] == subset_views(pre_subsets)[j2]);
                        } else {
                            assert(subset_views(subsets@)[j2] == tvec@.to_set());
                            assert(subset_views(subsets@)[i2] == subset_views(pre_subsets)[i2]);
                            assert(subset_views(pre_subsets)[i2] != tvec@.to_set());
                        }
                    }
                    // the new subset is one more distinct element of the powerset
                    let vsq = subset_views(subsets@);
                    vsq.unique_seq_to_set();
                    assert(vsq.to_set().subset_of(pset)) by {
                        assert forall|t: Set<u64>| vsq.to_set().contains(t) implies pset.contains(
                            t,
                        ) by {
                            assert(vsq.contains(t));
                            let m = choose|m: int| 0 <= m < vsq.len() && vsq[m] == t;
                            assert(subsets@[m]@.to_set() == t);
                            assert forall|x: u64| t.contains(x)
                                implies nfa.states@.to_set().contains(x) by {
                                assert(subsets@[m]@.contains(x));
                                assert(nfa.states@.contains(x));
                            }
                            assert(t.subset_of(nfa.states@.to_set()));
                        }
                    }
                    lemma_len_subset(vsq.to_set(), pset);
                    assert(subsets@.len() <= pset.len());
                }
            }
            let ghost pre_trans = transitions@;
            proof {
                if dtable_has(pre_trans, ((next as u64), c)) {
                    let m = choose|m: int|
                        0 <= m < pre_trans.len() && (#[trigger] pre_trans[m]).0 == (
                        (next as u64),
                        c,
                        );
                    let q = choose|q: int| 0 <= q < a && pre_trans[m].0.1 == nfa.alphabet@[q];
                    assert(nfa.alphabet@[q] == nfa.alphabet@[a as int]);
                    assert(false);
                }
                lemma_dtable_push(pre_trans, (((next as u64), c), tid as u64));
            }
            transitions.push((((next as u64), c), tid as u64));
            proof {
                assert(subset_views(subsets@)[tid as int] == tset);
                assert(dtable_has(transitions@, ((next as u64), c)) && dtable_get(
                    transitions@,
                    ((next as u64), c),
                ) == tid as u64);
                assert forall|ks2: u64| (ks2 as int) < subsets@.len()
                    implies #[trigger] tbl_reached(transitions@, nfa.alphabet@, ks2) by {
                    if (ks2 as int) < pre_subsets.len() {
                        assert(tbl_reached(pre_trans, nfa.alphabet@, ks2));
                        let w0 = choose|w0: Seq<u64>|
                            word_over(w0, nfa.alphabet@) && table_runs_to(
                                pre_trans,
                                0u64,
                                w0,
                                ks2,
                            );
                        lemma_runs_to_extend(pre_trans, transitions@, 0u64, w0, ks2);
                        assert(word_over(w0, nfa.alphabet@) && table_runs_to(
                            transitions@,
                            0u64,
                            w0,
                            ks2,
                        ));
                    } else {
                        assert(ks2 == tid as u64);
                        assert(tbl_reached(pre_trans, nfa.alphabet@, next as u64));
                        let w0 = choose|w0: Seq<u64>|
                            word_over(w0, nfa.alphabet@) && table_runs_to(
                                pre_trans,
                                0u64,
                                w0,
                                next as u64,
                            );
                        lemma_runs_to_extend(pre_trans, transitions@, 0u64, w0, next as u64);
                        lemma_runs_to_snoc(transitions@, 0u64, w0, next as u64, c);
                        crate::dfa::lemma_word_over_push(w0, nfa.alphabet@, c);
                        assert(word_over(w0.push(c), nfa.alphabet@) && table_runs_to(
                            transitions@,
                            0u64,
                            w0.push(c),
                            tid as u64,
                        ));
                    }
                }
                assert forall|m: int|
                    0 <= m < transitions@.len() && (transitions@[m].0.0 as int)
                        == next implies exists|q: int|
                    0 <= q < a + 1 && (#[trigger] transitions@[m]).0.1 == nfa.alphabet@[q] by {
                    if m < pre_trans.len() {
                        assert(pre_trans[m].0.0 as int == next);
                        let q = choose|q: int|
                            0 <= q < a && pre_trans[m].0.1 == nfa.alphabet@[q];
                        assert(transitions@[m].0.1 == nfa.alphabet@[q]);
                    } else {
                        assert(transitions@[m].0.1 == nfa.alphabet@[a as int]);
                    }
                }
                assert forall|ks: u64, c2: u64|
                    #![trigger dtable_get(transitions@, (ks, c2))]
                    #![trigger dtable_has(transitions@, (ks, c2))]
                    (ks as int) < next && nfa.alphabet@.contains(c2) implies dtable_has(
                    transitions@,
                    (ks, c2),
                ) && (dtable_get(transitions@, (ks, c2)) as int) < subsets@.len()
                    && subset_views(subsets@)[dtable_get(transitions@, (ks, c2)) as int]
                    == nfa.closure_of(nfa.step_set(subset_views(subsets@)[ks as int], c2)) by {
                    assert(dtable_has(pre_trans, (ks, c2)));
                    assert(dtable_get(transitions@, (ks, c2)) == dtable_get(
                        pre_trans,
                        (ks, c2),
                    ));
                    if !found {
                        assert(subset_views(subsets@)[dtable_get(pre_trans, (ks, c2)) as int]
                            == subset_views(pre_subsets)[dtable_get(pre_trans, (ks, c2)) as int]);
                        assert(subset_views(subsets@)[ks as int] == subset_views(
                            pre_subsets,
                        )[ks as int]);
                    }
                }
                assert forall|q: int| 0 <= q < a + 1 implies dtable_has(
                    transitions@,
                    ((next as u64), #[trigger] nfa.alphabet@[q]),
                ) && (dtable_get(transitions@, ((next as u64), nfa.alphabet@[q])) as int)
                    < subsets@.len() && subset_views(subsets@)[dtable_get(
                    transitions@,
                    ((next as u64), nfa.alphabet@[q]),
                ) as int] == nfa.closure_of(
                    nfa.step_set(subset_views(subsets@)[next as int], nfa.alphabet@[q]),
                ) by {
                    if q < a {
                        assert(dtable_has(pre_trans, ((next as u64), nfa.alphabet@[q])));
                        assert(dtable_get(transitions@, ((next as u64), nfa.alphabet@[q]))
                            == dtable_get(pre_trans, ((next as u64), nfa.alphabet@[q])));
                        if !found {
                            assert(subset_views(subsets@)[dtable_get(
                                pre_trans,
                                ((next as u64), nfa.alphabet@[q]),
                            ) as int] == subset_views(pre_subsets)[dtable_get(
                                pre_trans,
                                ((next as u64), nfa.alphabet@[q]),
                            ) as int]);
                            assert(subset_views(subsets@)[next as int] == subset_views(
                                pre_subsets,
                            )[next as int]);
                        }
                    } else {
                        assert(nfa.alphabet@[q] == c);
                    }
                }
            }
            a = a + 1;
        }
        // record whether the current subset is accepting
        let ghost pre_acc = accepting@;
        let mut isacc: bool = false;
        let mut si: usize = 0;
        while si < cur.len()
            invariant
                0 <= si <= cur@.len(),
                isacc ==> (exists|p: int|
                    0 <= p < cur@.len() && nfa.accepting@.contains(#[trigger] cur@[p])),
                !isacc ==> forall|p: int|
                    0 <= p < si ==> !nfa.accepting@.contains(#[trigger] cur@[p]),
            decreases cur@.len() - si,
        {
            if !isacc {
                if vec_contains(&nfa.accepting, cur[si]) {
                    isacc = true;
                }
            }
            si = si + 1;
        }
        if isacc {
            accepting.push(next as u64);
        }
        proof {
            assert forall|ks: u64| (ks as int) < next + 1 implies (
            (#[trigger] accepting@.contains(ks)) <==> (exists|x: u64|
                subset_views(subsets@)[ks as int].contains(x) && nfa.accepting@.contains(
                    x,
                ))) by {
                if (ks as int) <= next {
                    assert(subsets@[ks as int] == entry_subsets[ks as int]);
                    assert(subset_views(subsets@)[ks as int] == subset_views(
                        entry_subsets,
                    )[ks as int]);
                }
                if (ks as int) < next {
                    if pre_acc.contains(ks) {
                        let m = choose|m: int| 0 <= m < pre_acc.len() && pre_acc[m] == ks;
                        assert(accepting@[m] == ks);
                    }
                    if accepting@.contains(ks) {
                        let m = choose|m: int| 0 <= m < accepting@.len() && accepting@[m] == ks;
                        if m < pre_acc.len() {
                            assert(pre_acc.contains(ks));
                        } else {
                            assert(false);
                        }
                    }
                } else {
                    if isacc {
                        assert(accepting@[pre_acc.len() as int] == ks);
                        assert(accepting@.contains(ks));
                        let p = choose|p: int|
                            0 <= p < cur@.len() && nfa.accepting@.contains(#[trigger] cur@[p]);
                        assert(cur@.contains(cur@[p]));
                        assert(subset_views(subsets@)[ks as int].contains(cur@[p]));
                    } else {
                        if accepting@.contains(ks) {
                            let m = choose|m: int|
                                0 <= m < accepting@.len() && accepting@[m] == ks;
                            if m < pre_acc.len() {
                                assert((pre_acc[m] as int) < next);
                                assert(false);
                            }
                        }
                        if exists|x: u64|
                            subset_views(subsets@)[ks as int].contains(x)
                                && nfa.accepting@.contains(x) {
                            let x = choose|x: u64|
                                subset_views(subsets@)[ks as int].contains(x)
                                    && nfa.accepting@.contains(x);
                            assert(cur@.contains(x));
                            let p = choose|p: int| 0 <= p < cur@.len() && cur@[p] == x;
                            assert(false);
                        }
                    }
                }
            }
        }
        next = next + 1;
    }
    let n = subsets.len();
    let mut states: Vec<u64> = Vec::new();
    let mut k: usize = 0;
    while k < n
        invariant
            0 <= k <= n,
            states@.len() == k,
            forall|m: int| 0 <= m < k ==> #[trigger] states@[m] == m as u64,
        decreases n - k,
    {
        states.push(k as u64);
        k = k + 1;
    }
    let r = Dfa {
        states,
        alphabet: copy_values(&nfa.alphabet),
        start_state: 0u64,
        transitions,
        accepting,
    };
    proof {
        let vs = subset_views(subsets@);
        assert(r.states@[0] == 0u64);
        assert(r.states@.contains(0u64));
        assert forall|m1: int, m2: int| 0 <= m1 < m2 < r.states@.len() implies r.states@[m1]
            != r.states@[m2] by {
            assert(r.states@[m1] == m1 as u64 && r.states@[m2] == m2 as u64);
        }
        assert(r.states@.no_duplicates());
        assert forall|x: u64| #[trigger] r.accepting@.contains(x) implies r.states@.contains(
            x,
        ) by {
            let m = choose|m: int| 0 <= m < r.accepting@.len() && r.accepting@[m] == x;
            assert(r.states@[x as int] == x);
        }
        assert forall|s: u64, c: u64|
            #![trigger r.has_trans(s, c)]
            #![trigger r.trans_at(s, c)]
            r.states@.contains(s) && r.alphabet@.contains(c) implies r.has_trans(s, c)
            && r.states@.contains(r.trans_at(s, c)) by {
            let m = choose|m: int| 0 <= m < r.states@.len() && r.states@[m] == s;
            assert(s == m as u64);
            assert(dtable_has(r.transitions@, (s, c)));
            assert((dtable_get(r.transitions@, (s, c)) as int) < n);
            assert(r.states@[dtable_get(r.transitions@, (s, c)) as int] == dtable_get(
                r.transitions@,
                (s, c),
            ));
        }
        assert forall|m: int| 0 <= m < r.transitions@.len() implies r.states@.contains(
            (#[trigger] r.transitions@[m]).0.0,
        ) && r.alphabet@.contains(r.transitions@[m].0.1) by {
            assert((r.transitions@[m].0.0 as int) < n);
            assert(r.states@[r.transitions@[m].0.0 as int] == r.transitions@[m].0.0);
        }
        assert(r.wf());
        assert forall|w: Seq<u64>| word_over(w, nfa.alphabet@) implies (#[trigger] r.accepts(w))
            == nfa.accepts(w) by {
            lemma_subset_run(*nfa, r, vs, 0, w);
            let e = r.run_from(0u64, w);
            assert(vs[e as int] == nfa.sim_from(nfa.start_set(), w));
            assert(r.accepting@.contains(e) <==> (exists|x: u64|
                vs[e as int].contains(x) && nfa.accepting@.contains(x)));
        }
        assert forall|ks: u64| (ks as int) < vs.len() implies #[trigger] r.reaches(ks) by {
            assert(tbl_reached(r.transitions@, nfa.alphabet@, ks));
            let w0 = choose|w0: Seq<u64>|
                word_over(w0, nfa.alphabet@) && table_runs_to(r.transitions@, 0u64, w0, ks);
            lemma_runs_to_run(r, 0u64, w0, ks);
            assert(word_over(w0, r.alphabet@) && r.run_from(r.start_state, w0) == ks);
        }
        assert forall|ks: u64| #[trigger] r.accepting@.contains(ks) implies ((ks as int)
            < vs.len() && (exists|x: u64|
            vs[ks as int].contains(x) && nfa.accepting@.contains(x))) by {
            let m = choose|m: int| 0 <= m < r.accepting@.len() && r.accepting@[m] == ks;
            assert((r.accepting@[m] as int) < n);
        }
        assert forall|ks: u64, c: u64|
            #![trigger r.trans_at(ks, c)]
            #![trigger r.has_trans(ks, c)]
            (ks as int) < vs.len() && nfa.alphabet@.contains(c) implies r.has_trans(ks, c) && (
        r.trans_at(ks, c) as int) < vs.len() && vs[r.trans_at(ks, c) as int] == nfa.closure_of(
            nfa.step_set(vs[ks as int], c),
        ) by {
            assert(dtable_has(r.transitions@, (ks, c)));
            assert(r.trans_at(ks, c) == dtable_get(r.transitions@, (ks, c)));
        }
        assert(subset_rel(*nfa, r, vs));
    }
    r
}


/// The shape of `Nfa::empty(alpha)`.
pub open spec fn empty_shape(alpha: Seq<u64>, m: Nfa) -> bool {
    &&& m.alphabet@ == alpha
    &&& m.states@ == seq![0u64]
    &&& m.start_state == 0u64
    &&& m.transitions@.len() == 0
    &&& m.epsilon_transitions@.len() == 0
    &&& m.accepting@.len() == 0
}

/// The shape of `Nfa::epsilon(alpha)`.
pub open spec fn epsilon_shape(alpha: Seq<u64>, m: Nfa) -> bool {
    &&& m.alphabet@ == alpha
    &&& m.states@ == seq![0u64]
    &&& m.start_state == 0u64
    &&& m.transitions@.len() == 0
    &&& m.epsilon_transitions@.len() == 0
    &&& m.accepting@ == seq![0u64]
}

/// The shape of `Nfa::character(alpha, symbol)`.
pub open spec fn character_shape(alpha: Seq<u64>, symbol: u64, m: Nfa) -> bool {
    &&& m.alphabet@ == alpha
    &&& m.states@ == seq![0u64, 1u64]
    &&& m.start_state == 0u64
    &&& m.accepting@ == seq![1u64]
    &&& m.epsilon_transitions@.len() == 0
    &&& m.transitions@.len() == 1
    &&& m.transitions@[0].0 == (0u64, symbol)
    &&& m.transitions@[0].1@ == seq![1u64]
}

/// The shape of `Nfa::concatenation(left, right)`: the relation its contract
/// states between the operands and the result.
pub open spec fn concat_shape(left: Nfa, right: Nfa, j: Nfa) -> bool {
    &&& j.alphabet@ == left.alphabet@
    &&& j.states@.len() == left.states@.len() + right.states@.len()
    &&& forall|m: int| 0 <= m < j.states@.len() ==> #[trigger] j.states@[m] == m as u64
    &&& j.start_state == left.start_state
    &&& forall|s: u64, c: u64|
        (s as int) < left.states@.len() ==> #[trigger] j.step_targets(s, c) == left.step_targets(
            s,
            c,
        )
    &&& forall|s: u64, c: u64|
        left.states@.len() <= (s as int) < j.states@.len() ==> #[trigger] j.step_targets(s, c)
            == crate::nfa::shift_seq(
            right.step_targets((s - left.states@.len() as u64) as u64, c),
            left.states@.len() as u64,
        )
    &&& forall|s: u64, t: u64|
        (s as int) < left.states@.len() ==> ((#[trigger] j.eps_targets(s).contains(t)) <==> (
        left.eps_targets(s).contains(t) || (left.accepting@.contains(s) && t == (right.start_state
            + left.states@.len() as u64) as u64)))
    &&& forall|s: u64|
        left.states@.len() <= (s as int) < j.states@.len() ==> #[trigger] j.eps_targets(s)
            == crate::nfa::shift_seq(
            right.eps_targets((s - left.states@.len() as u64) as u64),
            left.states@.len() as u64,
        )
    &&& forall|a: u64|
        #[trigger] j.accepting@.contains(a) <==> (left.states@.len() <= (a as int)
            < j.states@.len() && right.accepting@.contains((a - left.states@.len() as u64) as u64))
}

/// The shape of `Nfa::union(first, second)`: the relation its contract
/// states between the operands and the result.
pub open spec fn union_shape(first: Nfa, second: Nfa, j: Nfa) -> bool {
    &&& j.alphabet@ == first.alphabet@
    &&& j.states@.len() == 1 + first.states@.len() + second.states@.len()
    &&& forall|m: int| 0 <= m < j.states@.len() ==> #[trigger] j.states@[m] == m as u64
    &&& j.start_state == 0u64
    &&& forall|c: u64| #[trigger] j.step_targets(0u64, c) == Seq::<u64>::empty()
    &&& forall|s: u64, c: u64|
        1 <= (s as int) < 1 + first.states@.len() ==> #[trigger] j.step_targets(s, c)
            == crate::nfa::shift_seq(first.step_targets((s - 1) as u64, c), 1u64)
    &&& forall|s: u64, c: u64|
        1 + first.states@.len() <= (s as int) < j.states@.len() ==> #[trigger] j.step_targets(
            s,
            c,
        ) == crate::nfa::shift_seq(
            second.step_targets((s - (1 + first.states@.len() as u64)) as u64, c),
            (1 + first.states@.len() as u64) as u64,
        )
    &&& j.eps_targets(0u64) == seq![
        (first.start_state + 1) as u64,
        (second.start_state + 1 + first.states@.len() as u64) as u64,
    ]
    &&& forall|s: u64|
        1 <= (s as int) < 1 + first.states@.len() ==> #[trigger] j.eps_targets(s)
            == crate::nfa::shift_seq(first.eps_targets((s - 1) as u64), 1u64)
    &&& forall|s: u64|
        1 + first.states@.len() <= (s as int) < j.states@.len() ==> #[trigger] j.eps_targets(s)
            == crate::nfa::shift_seq(
            second.eps_targets((s - (1 + first.states@.len() as u64)) as u64),
            (1 + first.states@.len() as u64) as u64,
        )
    &&& forall|a: u64|
        #[trigger] j.accepting@.contains(a) <==> ((1 <= (a as int) < 1 + first.states@.len()
            && first.accepting@.contains((a - 1) as u64)) || (1 + first.states@.len() <= (a as int)
            < 1 + first.states@.len() + second.states@.len() && second.accepting@.contains(
            (a - (1 + first.states@.len() as u64)) as u64,
        )))
}

/// The shape of `body.star()`: the relation its contract states between the
/// operand and the result.
pub open spec fn star_shape(body: Nfa, j: Nfa) -> bool {
    &&& j.alphabet@ == body.alphabet@
    &&& j.states@.len() == 1 + body.states@.len()
    &&& forall|m: int| 0 <= m < j.states@.len() ==> #[trigger] j.states@[m] == m as u64
    &&& j.start_state == 0u64
    &&& forall|c: u64| #[trigger] j.step_targets(0u64, c) == Seq::<u64>::empty()
    &&& forall|s: u64, c: u64|
        1 <= (s as int) < j.states@.len() ==> #[trigger] j.step_targets(s, c)
            == crate::nfa::shift_seq(body.step_targets((s - 1) as u64, c), 1u64)
    &&& j.eps_targets(0u64) == seq![(body.start_state + 1) as u64]
    &&& forall|s: u64, t: u64|
        1 <= (s as int) < j.states@.len() ==> ((#[trigger] j.eps_targets(s).contains(t)) <==> (
        crate::nfa::shift_seq(body.eps_targets((s - 1) as u64), 1u64).contains(t) || (
        body.accepting@.contains((s - 1) as u64) && t == (body.start_state + 1) as u64)))
    &&& forall|a: u64|
        #[trigger] j.accepting@.contains(a) <==> (a == 0u64 || (1 <= (a as int) < j.states@.len()
            && body.accepting@.contains((a - 1) as u64)))
}

/// `n` is the machine Thompson's construction builds for `r` over `alpha`:
/// a relabelling of the base machine or of the combination of machines built,
/// in turn, for the subexpressions. The relation pins the pipeline's result
/// structurally; the language equation it entails is stated by the tests.
pub open spec fn thompson_rel(r: Regex, alpha: Seq<u64>, n: Nfa) -> bool
    decreases r,
{
    match r {
        Regex::Empty => exists|m: Nfa, rs: Seq<u64>|
            empty_shape(alpha, m) && #[trigger] relabel_rel(m, n, rs),
        Regex::Epsilon => exists|m: Nfa, rs: Seq<u64>|
            epsilon_shape(alpha, m) && #[trigger] relabel_rel(m, n, rs),
        Regex::Character(c) => exists|m: Nfa, rs: Seq<u64>|
            character_shape(alpha, c, m) && #[trigger] relabel_rel(m, n, rs),
        Regex::Concat(l, rr) => exists|j: Nfa, rs: Seq<u64>|
            #![trigger relabel_rel(j, n, rs)]
            relabel_rel(j, n, rs) && (exists|a: Nfa, b: Nfa|
                #[trigger] concat_shape(a, b, j) && thompson_rel(*l, alpha, a) && thompson_rel(
                    *rr,
                    alpha,
                    b,
                )),
        Regex::Union(l, rr) => exists|j: Nfa, rs: Seq<u64>|
            #![trigger relabel_rel(j, n, rs)]
            relabel_rel(j, n, rs) && (exists|a: Nfa, b: Nfa|
                #[trigger] union_shape(a, b, j) && thompson_rel(*l, alpha, a) && thompson_rel(
                    *rr,
                    alpha,
                    b,
                )),
        Regex::Star(inner) => exists|j: Nfa, rs: Seq<u64>|
            #![trigger relabel_rel(j, n, rs)]
            relabel_rel(j, n, rs) && (exists|a: Nfa|
                #[trigger] star_shape(a, j) && thompson_rel(*inner, alpha, a)),
    }
}

/// A relabelled automaton has no more states than the original, since its
/// states stand for distinct original states.
proof fn lemma_relabel_len(orig: Nfa, r: Nfa, rs: Seq<u64>)
    requires
        relabel_rel(orig, r, rs),
        orig.states@.no_duplicates(),
    ensures
        r.states@.len() <= orig.states@.len(),
{
    rs.unique_seq_to_set();
    orig.states@.unique_seq_to_set();
    vstd::seq_lib::seq_to_set_is_finite::<u64>(orig.states@);
    assert(rs.to_set().subset_of(orig.states@.to_set())) by {
        assert forall|x: u64| rs.to_set().contains(x) implies orig.states@.to_set().contains(
            x,
        ) by {
            assert(rs.contains(x));
            assert(orig.states@.contains(x));
        }
    }
    lemma_len_subset(rs.to_set(), orig.states@.to_set());
}

/// Thompson's construction: build an NFA for each subexpression, combine,
/// and relabel after every step so that state identifiers stay dense.
pub fn regex_to_nfa(regex: &Regex, alphabet: Vec<u64>) -> (r: Nfa)
    requires
        alphabet@.no_duplicates(),
        regex_over(*regex, alphabet@),
        regex_size(*regex) <= usize::MAX,
    ensures
        r.wf(),
        r.alphabet@ == alphabet@,
        forall|m: int| 0 <= m < r.states@.len() ==> #[trigger] r.states@[m] == m as u64,
        r.states@.len() <= regex_size(*regex),
        thompson_rel(*regex, alphabet@, r),
    decreases *regex,
{
    let ghost alpha0 = alphabet@;
    match regex {
        Regex::Empty => {
            let n = Nfa::empty(alphabet);
            let out = n.relabel_states();
            proof {
                let rs = choose|rs: Seq<u64>| relabel_rel(n, out, rs);
                lemma_relabel_len(n, out, rs);
                assert(empty_shape(alpha0, n) && relabel_rel(n, out, rs));
                assert(thompson_rel(*regex, alpha0, out));
            }
            out
        },
        Regex::Epsilon => {
            let n = Nfa::epsilon(alphabet);
            let out = n.relabel_states();
            proof {
                let rs = choose|rs: Seq<u64>| relabel_rel(n, out, rs);
                lemma_relabel_len(n, out, rs);
                assert(epsilon_shape(alpha0, n) && relabel_rel(n, out, rs));
                assert(thompson_rel(*regex, alpha0, out));
            }
            out
        },
        Regex::Character(ch) => {
            let n = Nfa::character(alphabet, *ch);
            let out = n.relabel_states();
            proof {
                let rs = choose|rs: Seq<u64>| relabel_rel(n, out, rs);
                lemma_relabel_len(n, out, rs);
                assert(character_shape(alpha0, *ch, n) && relabel_rel(n, out, rs));
                assert(thompson_rel(*regex, alpha0, out));
            }
            out
        },
        Regex::Concat(l, rr) => {
            let left = regex_to_nfa(l, copy_values(&alphabet));
            let right = regex_to_nfa(rr, copy_values(&alphabet));
            let joined = Nfa::concatenation(&left, &right);
            let out = joined.relabel_states();
            proof {
                let rs = choose|rs: Seq<u64>| relabel_rel(joined, out, rs);
                lemma_relabel_len(joined, out, rs);
                assert(*regex matches Regex::Concat(bl, brr) && thompson_rel(*bl, alpha0, left)
                    && thompson_rel(*brr, alpha0, right));
                assert(concat_shape(left, right, joined) && relabel_rel(joined, out, rs));
                assert(thompson_rel(*regex, alpha0, out));
            }
            out
        },
        Regex::Union(l, rr) => {
            let left = regex_to_nfa(l, copy_values(&alphabet));
            let right = regex_to_nfa(rr, copy_values(&alphabet));
            let joined = Nfa::union(&left, &right);
            let out = joined.relabel_states();
            proof {
                let rs = choose|rs: Seq<u64>| relabel_rel(joined, out, rs);
                lemma_relabel_len(joined, out, rs);
                assert(*regex matches Regex::Union(bl, brr) && thompson_rel(*bl, alpha0, left)
                    && thompson_rel(*brr, alpha0, right));
                assert(union_shape(left, right, joined) && relabel_rel(joined, out, rs));
                assert(thompson_rel(*regex, alpha0, out));
            }
            out
        },
        Regex::Star(inner) => {
            let body = regex_to_nfa(inner, copy_values(&alphabet));
            let starred = body.star();
            let out = starred.relabel_states();
            proof {
                let rs = choose|rs: Seq<u64>| relabel_rel(starred, out, rs);
                lemma_relabel_len(starred, out, rs);
                assert(*regex matches Regex::Star(bi) && thompson_rel(*bi, alpha0, body));
                assert(star_shape(body, starred) && relabel_rel(starred, out, rs));
                assert(thompson_rel(*regex, alpha0, out));
            }
            out
        },
    }
}

/// The full compilation pipeline: Thompson's construction, the subset
/// construction, and a final relabelling to dense state identifiers. The
/// result accepts exactly the words that the Thompson machine for the
/// expression accepts.
pub fn regex_to_dfa(regex: &Regex, alphabet: Vec<u64>) -> (r: Dfa)
    requires
        alphabet@.no_duplicates(),
        regex_over(*regex, alphabet@),
        regex_size(*regex) <= usize::MAX,
    ensures
        r.wf(),
        r.alphabet@ == alphabet@,
        forall|m: int| 0 <= m < r.states@.len() ==> #[trigger] r.states@[m] == m as u64,
        exists|n: Nfa|
            #[trigger] thompson_rel(*regex, alphabet@, n) && (forall|w: Seq<u64>|
                word_over(w, alphabet@) ==> (#[trigger] r.accepts(w)) == n.accepts(w)),
{
    let ghost alpha0 = alphabet@;
    let n = regex_to_nfa(regex, alphabet);
    let d = nfa_to_dfa(&n);
    let out = d.relabel_states();
    proof {
        assert(thompson_rel(*regex, alpha0, n));
        assert forall|w: Seq<u64>| word_over(w, alpha0) implies (#[trigger] out.accepts(w))
            == n.accepts(w) by {
            assert(d.accepts(w) == n.accepts(w));
            assert(out.accepts(w) == d.accepts(w));
        }
    }
    out
}

} // verus!
