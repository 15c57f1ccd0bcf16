use automata::conversions::{dfa_to_nfa, nfa_to_dfa, regex_to_dfa, regex_to_nfa};
use automata::dfa::{BoolOp, Dfa};
use automata::nfa::Nfa;
use automata::regex::Regex;

// The alphabet {a, b} encoded as {0, 1}.
const A: u64 = 0;
const B: u64 = 1;

fn ab() -> Vec<u64> {
    vec![A, B]
}

// A two-state DFA over {a, b} that accepts words with an odd number of `a`s.
fn odd_a_dfa() -> Dfa {
    Dfa {
        states: vec![0, 1],
        alphabet: ab(),
        start_state: 0,
        transitions: vec![((0, A), 1), ((0, B), 0), ((1, A), 0), ((1, B), 1)],
        accepting: vec![1],
    }
}

// A two-state DFA over {a, b} that accepts every word containing at least one `b`.
fn has_b_dfa() -> Dfa {
    Dfa {
        states: vec![0, 1],
        alphabet: ab(),
        start_state: 0,
        transitions: vec![((0, A), 0), ((0, B), 1), ((1, A), 1), ((1, B), 1)],
        accepting: vec![1],
    }
}

fn words_up_to_3() -> Vec<Vec<u64>> {
    let mut out: Vec<Vec<u64>> = vec![vec![]];
    for c1 in [A, B] {
        out.push(vec![c1]);
        for c2 in [A, B] {
            out.push(vec![c1, c2]);
            for c3 in [A, B] {
                out.push(vec![c1, c2, c3]);
            }
        }
    }
    out
}

fn odd_a(w: &[u64]) -> bool {
    w.iter().filter(|&&c| c == A).count() % 2 == 1
}

fn has_b(w: &[u64]) -> bool {
    w.iter().any(|&c| c == B)
}

#[test]
fn dfa_parse_string_finds_b() {
    let d = has_b_dfa();
    for w in words_up_to_3() {
        assert_eq!(d.parse_string(&w), has_b(&w), "word {:?}", w);
    }
}

#[test]
fn dfa_validate_accepts_well_formed() {
    assert!(odd_a_dfa().validate());
    assert!(has_b_dfa().validate());
}

#[test]
fn dfa_validate_rejects_partial_table() {
    let d = Dfa {
        states: vec![0, 1],
        alphabet: ab(),
        start_state: 0,
        transitions: vec![((0, A), 1)],
        accepting: vec![1],
    };
    assert!(!d.validate());
}

#[test]
fn dfa_validate_rejects_dangling_target() {
    let d = Dfa {
        states: vec![0],
        alphabet: ab(),
        start_state: 0,
        transitions: vec![((0, A), 7), ((0, B), 0)],
        accepting: vec![],
    };
    assert!(!d.validate());
}

#[test]
fn dfa_validate_ignores_entries_keyed_outside() {
    // an extra entry keyed by a non-state or a non-symbol is ignored,
    // as the original lookups never reach it
    let d = Dfa {
        states: vec![0],
        alphabet: ab(),
        start_state: 0,
        transitions: vec![((0, A), 0), ((0, B), 0), ((9, A), 7)],
        accepting: vec![],
    };
    assert!(d.validate());
}

#[test]
fn nfa_validate_ignores_entries_keyed_outside() {
    let n = Nfa {
        states: vec![0],
        alphabet: ab(),
        start_state: 0,
        transitions: vec![((9, A), vec![7])],
        epsilon_transitions: vec![(9, vec![7])],
        accepting: vec![],
    };
    assert!(n.validate());
}

#[test]
fn dfa_parse_string_tracks_parity() {
    let d = odd_a_dfa();
    for w in words_up_to_3() {
        assert_eq!(d.parse_string(&w), odd_a(&w), "word {:?}", w);
    }
}

#[test]
fn dfa_transition_follows_table() {
    let d = odd_a_dfa();
    assert_eq!(d.transition(0, A), 1);
    assert_eq!(d.transition(1, A), 0);
    assert_eq!(d.transition(1, B), 1);
}

#[test]
fn dfa_empty_and_complete() {
    let e = Dfa::empty(ab());
    let c = Dfa::complete(ab());
    assert!(e.is_empty());
    assert!(!c.is_empty());
    assert!(c.is_complete());
    for w in words_up_to_3() {
        assert!(!e.parse_string(&w));
        assert!(c.parse_string(&w));
    }
}

#[test]
fn dfa_complement_flips_acceptance() {
    let d = odd_a_dfa();
    let c = d.complement();
    for w in words_up_to_3() {
        assert_eq!(c.parse_string(&w), !d.parse_string(&w), "word {:?}", w);
    }
    let cc = c.complement();
    assert!(cc.equivalent(&d));
}

#[test]
fn dfa_product_boolean_algebra() {
    let d1 = odd_a_dfa();
    let d2 = has_b_dfa();
    let u = Dfa::union(&d1, &d2);
    let i = Dfa::intersection(&d1, &d2);
    let diff = Dfa::difference(&d1, &d2);
    let sym = Dfa::symmetric_difference(&d1, &d2);
    for w in words_up_to_3() {
        let x = d1.parse_string(&w);
        let y = d2.parse_string(&w);
        assert_eq!(u.parse_string(&w), x || y, "union {:?}", w);
        assert_eq!(i.parse_string(&w), x && y, "intersection {:?}", w);
        assert_eq!(diff.parse_string(&w), x && !y, "difference {:?}", w);
        assert_eq!(sym.parse_string(&w), x != y, "symmetric difference {:?}", w);
    }
}

#[test]
fn dfa_product_by_combinator() {
    let d1 = odd_a_dfa();
    let d2 = has_b_dfa();
    let p = Dfa::product(&d1, &d2, BoolOp::And);
    for w in words_up_to_3() {
        assert_eq!(
            p.parse_string(&w),
            d1.parse_string(&w) && d2.parse_string(&w),
            "word {:?}",
            w
        );
    }
}

#[test]
fn dfa_equivalent_is_an_equivalence() {
    let d1 = odd_a_dfa();
    let d2 = odd_a_dfa();
    let d3 = d1.relabel_states();
    // reflexive
    assert!(d1.equivalent(&d1));
    // symmetric
    assert!(d1.equivalent(&d2));
    assert!(d2.equivalent(&d1));
    // transitive
    assert!(d2.equivalent(&d3));
    assert!(d1.equivalent(&d3));
    // and it distinguishes different languages
    assert!(!d1.equivalent(&has_b_dfa()));
}

#[test]
fn dfa_relabel_keeps_language_and_compacts_ids() {
    // start from a DFA with sparse ids and an unreachable state
    let d = Dfa {
        states: vec![10, 20, 99],
        alphabet: ab(),
        start_state: 10,
        transitions: vec![
            ((10, A), 20),
            ((10, B), 10),
            ((20, A), 10),
            ((20, B), 20),
            ((99, A), 99),
            ((99, B), 99),
        ],
        accepting: vec![20, 99],
    };
    let r = d.relabel_states();
    // exactly the two reachable states, renumbered 0 and 1
    assert_eq!(r.states.len(), 2);
    let mut ids = r.states.clone();
    ids.sort();
    assert_eq!(ids, vec![0, 1]);
    for w in words_up_to_3() {
        assert_eq!(r.parse_string(&w), d.parse_string(&w), "word {:?}", w);
    }
}

#[test]
fn dfa_is_empty_sees_through_unreachable_accepting_states() {
    let d = Dfa {
        states: vec![0, 1],
        alphabet: ab(),
        start_state: 0,
        transitions: vec![((0, A), 0), ((0, B), 0), ((1, A), 1), ((1, B), 1)],
        accepting: vec![1],
    };
    assert!(d.is_empty());
    assert!(!d.is_complete());
}

#[test]
fn nfa_validate_and_transition() {
    let n = Nfa {
        states: vec![0, 1],
        alphabet: ab(),
        start_state: 0,
        transitions: vec![((0, A), vec![0, 1])],
        epsilon_transitions: vec![(0, vec![1])],
        accepting: vec![1],
    };
    assert!(n.validate());
    assert_eq!(n.transition(0, A), Some(vec![0, 1]));
    assert_eq!(n.transition(0, B), None);
    let bad = Nfa {
        states: vec![0],
        alphabet: ab(),
        start_state: 0,
        transitions: vec![((0, A), vec![5])],
        epsilon_transitions: vec![],
        accepting: vec![],
    };
    assert!(!bad.validate());
}

#[test]
fn nfa_epsilon_closure_follows_chains() {
    let n = Nfa {
        states: vec![0, 1, 2, 3],
        alphabet: ab(),
        start_state: 0,
        transitions: vec![],
        epsilon_transitions: vec![(0, vec![1]), (1, vec![2])],
        accepting: vec![],
    };
    let mut c = n.epsilon_closure(&vec![0]);
    c.sort();
    assert_eq!(c, vec![0, 1, 2]);
    let mut c3 = n.epsilon_closure(&vec![3]);
    c3.sort();
    assert_eq!(c3, vec![3]);
}

#[test]
fn nfa_parse_string_simulates_sets() {
    // accepts words that end with `ab`
    let n = Nfa {
        states: vec![0, 1, 2],
        alphabet: ab(),
        start_state: 0,
        transitions: vec![
            ((0, A), vec![0, 1]),
            ((0, B), vec![0]),
            ((1, B), vec![2]),
        ],
        epsilon_transitions: vec![],
        accepting: vec![2],
    };
    for w in words_up_to_3() {
        let expect = w.len() >= 2 && w[w.len() - 2] == A && w[w.len() - 1] == B;
        assert_eq!(n.parse_string(&w), expect, "word {:?}", w);
    }
}

#[test]
fn nfa_base_constructors() {
    let e = Nfa::empty(ab());
    let eps = Nfa::epsilon(ab());
    let ch = Nfa::character(ab(), A);
    for w in words_up_to_3() {
        assert!(!e.parse_string(&w));
        assert_eq!(eps.parse_string(&w), w.is_empty());
        assert_eq!(ch.parse_string(&w), w == vec![A]);
    }
}

#[test]
fn nfa_concatenation_joins_languages() {
    let left = Nfa::character(ab(), A);
    let right = Nfa::character(ab(), B);
    let j = Nfa::concatenation(&left, &right);
    for w in words_up_to_3() {
        assert_eq!(j.parse_string(&w), w == vec![A, B], "word {:?}", w);
    }
}

#[test]
fn nfa_union_takes_either_language() {
    let left = Nfa::character(ab(), A);
    let right = Nfa::character(ab(), B);
    let u = Nfa::union(&left, &right);
    for w in words_up_to_3() {
        assert_eq!(
            u.parse_string(&w),
            w == vec![A] || w == vec![B],
            "word {:?}",
            w
        );
    }
}

#[test]
fn nfa_star_iterates_language() {
    let a = Nfa::character(ab(), A);
    let s = a.star();
    for w in words_up_to_3() {
        let expect = w.iter().all(|&c| c == A);
        assert_eq!(s.parse_string(&w), expect, "word {:?}", w);
    }
}

#[test]
fn nfa_relabel_keeps_language() {
    let left = Nfa::character(ab(), A);
    let right = Nfa::character(ab(), B);
    let j = Nfa::concatenation(&left, &right);
    let r = j.relabel_states();
    assert!(r.validate());
    for w in words_up_to_3() {
        assert_eq!(r.parse_string(&w), j.parse_string(&w), "word {:?}", w);
    }
}

#[test]
fn dfa_to_nfa_keeps_language() {
    let d = odd_a_dfa();
    let n = dfa_to_nfa(&d);
    assert!(n.validate());
    for w in words_up_to_3() {
        assert_eq!(n.parse_string(&w), d.parse_string(&w), "word {:?}", w);
    }
}

#[test]
fn nfa_to_dfa_matches_simulation() {
    // accepts words that end with `ab`
    let n = Nfa {
        states: vec![0, 1, 2],
        alphabet: ab(),
        start_state: 0,
        transitions: vec![
            ((0, A), vec![0, 1]),
            ((0, B), vec![0]),
            ((1, B), vec![2]),
        ],
        epsilon_transitions: vec![],
        accepting: vec![2],
    };
    let d = nfa_to_dfa(&n);
    assert!(d.validate());
    for w in words_up_to_3() {
        assert_eq!(d.parse_string(&w), n.parse_string(&w), "word {:?}", w);
    }
}

#[test]
fn nfa_to_dfa_handles_epsilon_edges() {
    let left = Nfa::character(ab(), A);
    let s = left.star();
    let d = nfa_to_dfa(&s);
    for w in words_up_to_3() {
        assert_eq!(d.parse_string(&w), s.parse_string(&w), "word {:?}", w);
    }
}

#[test]
fn regex_matcher_basics() {
    let r = Regex::Concat(
        Box::new(Regex::Character(A)),
        Box::new(Regex::Star(Box::new(Regex::Character(B)))),
    );
    assert!(r.parse_string(&vec![A]));
    assert!(r.parse_string(&vec![A, B]));
    assert!(r.parse_string(&vec![A, B, B]));
    assert!(!r.parse_string(&vec![]));
    assert!(!r.parse_string(&vec![B]));
    assert!(!r.parse_string(&vec![B, A]));
    assert!(Regex::Epsilon.parse_string(&vec![]));
    assert!(!Regex::Empty.parse_string(&vec![]));
    assert!(Regex::Star(Box::new(Regex::Epsilon)).parse_string(&vec![]));
    assert!(!Regex::Star(Box::new(Regex::Epsilon)).parse_string(&vec![A]));
}

#[test]
fn regex_to_dfa_union_scenario() {
    let r = Regex::Union(
        Box::new(Regex::Character(A)),
        Box::new(Regex::Character(B)),
    );
    let d = regex_to_dfa(&r, ab());
    assert!(d.parse_string(&vec![A]));
    assert!(d.parse_string(&vec![B]));
    assert!(!d.parse_string(&vec![]));
    assert!(!d.parse_string(&vec![A, B]));
}

#[test]
fn regex_to_dfa_concat_star_scenario() {
    let r = Regex::Concat(
        Box::new(Regex::Character(A)),
        Box::new(Regex::Star(Box::new(Regex::Character(B)))),
    );
    let d = regex_to_dfa(&r, ab());
    assert!(d.parse_string(&vec![A]));
    assert!(d.parse_string(&vec![A, B]));
    assert!(d.parse_string(&vec![A, B, B]));
    assert!(!d.parse_string(&vec![]));
    assert!(!d.parse_string(&vec![B]));
    assert!(!d.parse_string(&vec![B, A]));
}

#[test]
fn regex_to_dfa_equivalent_scenario() {
    let r1 = Regex::Union(
        Box::new(Regex::Character(A)),
        Box::new(Regex::Character(B)),
    );
    let r2 = Regex::Union(
        Box::new(Regex::Character(B)),
        Box::new(Regex::Character(A)),
    );
    let d1 = regex_to_dfa(&r1, ab());
    let d2 = regex_to_dfa(&r2, ab());
    assert!(d1.equivalent(&d2));
}

#[test]
fn empty_and_complete_scenario() {
    assert!(Dfa::empty(ab()).is_empty());
    assert!(!Dfa::complete(ab()).is_empty());
    assert!(Dfa::complete(ab()).is_complete());
}

#[test]
fn regex_to_dfa_complement_scenario() {
    let d = regex_to_dfa(&Regex::Character(A), ab());
    let c = d.complement();
    assert!(c.parse_string(&vec![]));
    assert!(c.parse_string(&vec![B]));
    assert!(c.parse_string(&vec![A, A]));
    assert!(!c.parse_string(&vec![A]));
}

#[test]
fn regex_pipeline_agrees_with_matcher() {
    let patterns = vec![
        Regex::Empty,
        Regex::Epsilon,
        Regex::Character(A),
        Regex::Union(
            Box::new(Regex::Character(A)),
            Box::new(Regex::Epsilon),
        ),
        Regex::Concat(
            Box::new(Regex::Star(Box::new(Regex::Character(A)))),
            Box::new(Regex::Character(B)),
        ),
        Regex::Star(Box::new(Regex::Union(
            Box::new(Regex::Character(A)),
            Box::new(Regex::Concat(
                Box::new(Regex::Character(B)),
                Box::new(Regex::Character(B)),
            )),
        ))),
    ];
    for r in &patterns {
        let n = regex_to_nfa(r, ab());
        let d = regex_to_dfa(r, ab());
        for w in words_up_to_3() {
            let expect = r.parse_string(&w);
            assert_eq!(n.parse_string(&w), expect, "nfa {:?}", w);
            assert_eq!(d.parse_string(&w), expect, "dfa {:?}", w);
        }
    }
}
