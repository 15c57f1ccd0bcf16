//! Regular-expression syntax trees and the brute-force reference matcher.
//!
//! The matcher decides membership in the denoted language directly from the
//! recursive definition, trying every split point; it is an oracle for
//! cross-checking automaton-based matching, not a production matcher.

#![verifier::loop_isolation(false)]
use vstd::prelude::*;

verus! {

/// A regular expression over `u64` symbols.
pub enum Regex {
    Empty,
    Epsilon,
    Character(u64),
    Concat(Box<Regex>, Box<Regex>),
    Union(Box<Regex>, Box<Regex>),
    Star(Box<Regex>),
}

/// Membership of the word `w` in the language of `r`.
///
/// `Star` is defined by: the empty word matches, and otherwise some non-empty
/// prefix must match the body with the remainder matching the star again.
/// Skipping the zero-length prefix split keeps the recursion well founded and
/// leaves the denoted language unchanged, since a zero-length first split
/// consumes nothing.
pub open spec fn regex_matches(r: Regex, w: Seq<u64>) -> bool
    decreases w.len(), r,
{
    match r {
        Regex::Empty => false,
        Regex::Epsilon => w.len() == 0,
        Regex::Character(c) => w.len() == 1 && w[0] == c,
        Regex::Concat(l, rr) => exists|i: int|
            0 <= i <= w.len() && regex_matches(*l, w.subrange(0, i)) && regex_matches(
                *rr,
                w.subrange(i, w.len() as int),
            ),
        Regex::Union(l, rr) => regex_matches(*l, w) || regex_matches(*rr, w),
        Regex::Star(inner) => w.len() == 0 || exists|i: int|
            1 <= i <= w.len() && regex_matches(*inner, w.subrange(0, i)) && regex_matches(
                r,
                w.subrange(i, w.len() as int),
            ),
    }
}

/// The number of automaton states Thompson's construction allocates for `r`
/// before pruning: one per base expression state, plus one fresh start state
/// for each union or star node.
pub open spec fn regex_size(r: Regex) -> nat
    decreases r,
{
    match r {
        Regex::Empty => 1,
        Regex::Epsilon => 1,
        Regex::Character(_) => 2,
        Regex::Concat(l, rr) => regex_size(*l) + regex_size(*rr),
        Regex::Union(l, rr) => 1 + regex_size(*l) + regex_size(*rr),
        Regex::Star(inner) => 1 + regex_size(*inner),
    }
}

/// Does every symbol named in `r` belong to the alphabet `alpha`?
pub open spec fn regex_over(r: Regex, alpha: Seq<u64>) -> bool
    decreases r,
{
    match r {
        Regex::Empty => true,
        Regex::Epsilon => true,
        Regex::Character(c) => alpha.contains(c),
        Regex::Concat(l, rr) => regex_over(*l, alpha) && regex_over(*rr, alpha),
        Regex::Union(l, rr) => regex_over(*l, alpha) && regex_over(*rr, alpha),
        Regex::Star(inner) => regex_over(*inner, alpha),
    }
}

impl Regex {
    /// Decide whether `string[lo..hi]` matches this expression, trying every
    /// split point for `Concat` and every non-empty first split for `Star`.
    fn parse_range(&self, string: &Vec<u64>, lo: usize, hi: usize) -> (r: bool)
        requires
            lo <= hi <= string@.len(),
        ensures
            r == regex_matches(*self, string@.subrange(lo as int, hi as int)),
        decreases hi - lo, *self,
    {
        let ghost w = string@.subrange(lo as int, hi as int);
        match self {
            Regex::Empty => false,
            Regex::Epsilon => lo == hi,
            Regex::Character(c) => {
                if hi - lo == 1 {
                    proof {
                        assert(w[0] == string@[lo as int]);
                    }
                    string[lo] == *c
                } else {
                    false
                }
            },
            Regex::Concat(l, rr) => {
                let mut i: usize = lo;
                while i < hi
                    invariant
                        lo <= i <= hi,
                        forall|s: int|
                            0 <= s < i - lo ==> !(regex_matches(**l, #[trigger] w.subrange(0, s))
                                && regex_matches(**rr, w.subrange(s, w.len() as int))),
                    decreases hi - i,
                {
                    let b1 = l.parse_range(string, lo, i);
                    let b2 = rr.parse_range(string, i, hi);
                    proof {
                        assert(string@.subrange(lo as int, i as int) =~= w.subrange(
                            0,
                            i as int - lo as int,
                        ));
                        assert(string@.subrange(i as int, hi as int) =~= w.subrange(
                            i as int - lo as int,
                            w.len() as int,
                        ));
                    }
                    if b1 && b2 {
                        proof {
                            assert(regex_matches(**l, w.subrange(0, i as int - lo as int))
                                && regex_matches(
                                **rr,
                                w.subrange(i as int - lo as int, w.len() as int),
                            ));
                        }
                        return true;
                    }
                    i = i + 1;
                }
                let b1 = l.parse_range(string, lo, hi);
                let b2 = rr.parse_range(string, hi, hi);
                proof {
                    assert(string@.subrange(lo as int, hi as int) =~= w.subrange(
                        0,
                        w.len() as int,
                    ));
                    assert(string@.subrange(hi as int, hi as int) =~= w.subrange(
                        w.len() as int,
                        w.len() as int,
                    ));
                }
                if b1 && b2 {
                    proof {
                        assert(regex_matches(**l, w.subrange(0, w.len() as int)) && regex_matches(
                            **rr,
                            w.subrange(w.len() as int, w.len() as int),
                        ));
                    }
                    true
                } else {
                    proof {
                        assert forall|s: int| 0 <= s <= w.len() implies !(regex_matches(
                            **l,
                            #[trigger] w.subrange(0, s),
                        ) && regex_matches(**rr, w.subrange(s, w.len() as int))) by {
                            if s == w.len() as int {
                                assert(!(b1 && b2));
                            }
                        }
                    }
                    false
                }
            },
            Regex::Union(l, rr) => {
                let b1 = l.parse_range(string, lo, hi);
                let b2 = rr.parse_range(string, lo, hi);
                b1 || b2
            },
            Regex::Star(inner) => {
                if lo == hi {
                    return true;
                }
                let mut i: usize = lo + 1;
                while i < hi
                    invariant
                        lo + 1 <= i <= hi,
                        forall|s: int|
                            1 <= s < i - lo ==> !(regex_matches(
                                **inner,
                                #[trigger] w.subrange(0, s),
                            ) && regex_matches(*self, w.subrange(s, w.len() as int))),
                    decreases hi - i,
                {
                    let b1 = inner.parse_range(string, lo, i);
                    let b2 = self.parse_range(string, i, hi);
                    proof {
                        assert(string@.subrange(lo as int, i as int) =~= w.subrange(
                            0,
                            i as int - lo as int,
                        ));
                        assert(string@.subrange(i as int, hi as int) =~= w.subrange(
                            i as int - lo as int,
                            w.len() as int,
                        ));
                    }
                    if b1 && b2 {
                        proof {
                            assert(regex_matches(**inner, w.subrange(0, i as int - lo as int))
                                && regex_matches(
                                *self,
                                w.subrange(i as int - lo as int, w.len() as int),
                            ));
                        }
                        return true;
                    }
                    i = i + 1;
                }
                let b1 = inner.parse_range(string, lo, hi);
                proof {
                    assert(string@.subrange(lo as int, hi as int) =~= w.subrange(
                        0,
                        w.len() as int,
                    ));
                }
                if b1 {
                    proof {
                        assert(w.subrange(w.len() as int, w.len() as int).len() == 0);
                        assert(regex_matches(*self, w.subrange(w.len() as int, w.len() as int)));
                        assert(regex_matches(**inner, w.subrange(0, w.len() as int))
                            && regex_matches(
                            *self,
                            w.subrange(w.len() as int, w.len() as int),
                        ));
                    }
                    true
                } else {
                    proof {
                        assert forall|s: int| 1 <= s <= w.len() implies !(regex_matches(
                            **inner,
                            #[trigger] w.subrange(0, s),
                        ) && regex_matches(*self, w.subrange(s, w.len() as int))) by {
                            if s == w.len() as int {
                                assert(!b1);
                            }
                        }
                    }
                    false
                }
            },
        }
    }

    /// Decide whether the whole word matches this expression.
    pub fn parse_string(&self, string: &Vec<u64>) -> (r: bool)
        ensures
            r == regex_matches(*self, string@),
    {
        let n = string.len();
        let b = self.parse_range(string, 0, n);
        proof {
            assert(string@.subrange(0, string@.len() as int) =~= string@);
        }
        b
    }
}

} // verus!
