//! Lookup tables and membership helpers shared by the automata.
//!
//! Transition functions are stored as vectors of key/value entries with
//! pairwise-distinct keys; the spec-level view of such a table is given by
//! `choose`-based lookup functions, which are well defined exactly because
//! the keys are distinct.

use vstd::prelude::*;

verus! {

/// Does the vector contain `x`?
pub fn vec_contains(v: &Vec<u64>, x: u64) -> (r: bool)
    ensures
        r == v@.contains(x),
{
    let mut i: usize = 0;
    while i < v.len()
        invariant
            0 <= i <= v.len(),
            forall|j: int| 0 <= j < i ==> v@[j] != x,
        decreases v.len() - i,
    {
        if v[i] == x {
            return true;
        }
        i = i + 1;
    }
    false
}

/// The entries of a deterministic transition table have pairwise-distinct keys.
pub open spec fn dkeys_distinct(t: Seq<((u64, u64), u64)>) -> bool {
    forall|i: int, j: int| 0 <= i < j < t.len() ==> (#[trigger] t[i]).0 != (#[trigger] t[j]).0
}

/// Is the key `k` present in the deterministic table?
pub open spec fn dtable_has(t: Seq<((u64, u64), u64)>, k: (u64, u64)) -> bool {
    exists|i: int| 0 <= i < t.len() && (#[trigger] t[i]).0 == k
}

/// The value stored under key `k`; meaningful only when `dtable_has(t, k)`.
pub open spec fn dtable_get(t: Seq<((u64, u64), u64)>, k: (u64, u64)) -> u64 {
    t[choose|i: int| 0 <= i < t.len() && (#[trigger] t[i]).0 == k].1
}

/// With distinct keys, any entry that matches `k` carries the value `dtable_get(t, k)`.
pub proof fn lemma_dtable_get(t: Seq<((u64, u64), u64)>, k: (u64, u64), i: int)
    requires
        dkeys_distinct(t),
        0 <= i < t.len(),
        t[i].0 == k,
    ensures
        dtable_has(t, k),
        dtable_get(t, k) == t[i].1,
{
    let j = choose|j: int| 0 <= j < t.len() && (#[trigger] t[j]).0 == k;
    if i != j {
        assert(t[i].0 != t[j].0);
    }
}

/// Look a key up in a deterministic transition table.
pub fn dtable_lookup(t: &Vec<((u64, u64), u64)>, s: u64, c: u64) -> (r: Option<u64>)
    requires
        dkeys_distinct(t@),
    ensures
        match r {
            Some(v) => dtable_has(t@, (s, c)) && v == dtable_get(t@, (s, c)),
            None => !dtable_has(t@, (s, c)),
        },
{
    let mut i: usize = 0;
    while i < t.len()
        invariant
            0 <= i <= t.len(),
            dkeys_distinct(t@),
            forall|j: int| 0 <= j < i ==> (#[trigger] t@[j]).0 != (s, c),
        decreases t.len() - i,
    {
        if t[i].0.0 == s && t[i].0.1 == c {
            proof {
                lemma_dtable_get(t@, (s, c), i as int);
            }
            return Some(t[i].1);
        }
        i = i + 1;
    }
    None
}

/// The entries of a nondeterministic transition table have pairwise-distinct keys.
pub open spec fn nkeys_distinct(t: Seq<((u64, u64), Vec<u64>)>) -> bool {
    forall|i: int, j: int| 0 <= i < j < t.len() ==> (#[trigger] t[i]).0 != (#[trigger] t[j]).0
}

/// Is the key `k` present in the nondeterministic table?
pub open spec fn ntable_has(t: Seq<((u64, u64), Vec<u64>)>, k: (u64, u64)) -> bool {
    exists|i: int| 0 <= i < t.len() && (#[trigger] t[i]).0 == k
}

/// The targets stored under key `k`, or the empty sequence when `k` is absent.
pub open spec fn ntable_at(t: Seq<((u64, u64), Vec<u64>)>, k: (u64, u64)) -> Seq<u64> {
    if ntable_has(t, k) {
        t[choose|i: int| 0 <= i < t.len() && (#[trigger] t[i]).0 == k].1@
    } else {
        Seq::empty()
    }
}

/// With distinct keys, any entry that matches `k` carries the targets `ntable_at(t, k)`.
pub proof fn lemma_ntable_at(t: Seq<((u64, u64), Vec<u64>)>, k: (u64, u64), i: int)
    requires
        nkeys_distinct(t),
        0 <= i < t.len(),
        t[i].0 == k,
    ensures
        ntable_has(t, k),
        ntable_at(t, k) == t[i].1@,
{
    let j = choose|j: int| 0 <= j < t.len() && (#[trigger] t[j]).0 == k;
    if i != j {
        assert(t[i].0 != t[j].0);
    }
}

/// Look a key up in a nondeterministic transition table, cloning the target list.
pub fn ntable_lookup(t: &Vec<((u64, u64), Vec<u64>)>, s: u64, c: u64) -> (r: Option<Vec<u64>>)
    requires
        nkeys_distinct(t@),
    ensures
        match r {
            Some(v) => ntable_has(t@, (s, c)) && v@ == ntable_at(t@, (s, c)),
            None => !ntable_has(t@, (s, c)),
        },
{
    let mut i: usize = 0;
    while i < t.len()
        invariant
            0 <= i <= t.len(),
            nkeys_distinct(t@),
            forall|j: int| 0 <= j < i ==> (#[trigger] t@[j]).0 != (s, c),
        decreases t.len() - i,
    {
        if t[i].0.0 == s && t[i].0.1 == c {
            proof {
                lemma_ntable_at(t@, (s, c), i as int);
            }
            let v = t[i].1.clone();
            assert(v@ =~= t@[i as int].1@);
            return Some(v);
        }
        i = i + 1;
    }
    None
}

/// The entries of an epsilon table have pairwise-distinct keys.
pub open spec fn ekeys_distinct(t: Seq<(u64, Vec<u64>)>) -> bool {
    forall|i: int, j: int| 0 <= i < j < t.len() ==> (#[trigger] t[i]).0 != (#[trigger] t[j]).0
}

/// Is the state `s` present in the epsilon table?
pub open spec fn etable_has(t: Seq<(u64, Vec<u64>)>, s: u64) -> bool {
    exists|i: int| 0 <= i < t.len() && (#[trigger] t[i]).0 == s
}

/// The epsilon targets stored under `s`, or the empty sequence when `s` is absent.
pub open spec fn etable_at(t: Seq<(u64, Vec<u64>)>, s: u64) -> Seq<u64> {
    if etable_has(t, s) {
        t[choose|i: int| 0 <= i < t.len() && (#[trigger] t[i]).0 == s].1@
    } else {
        Seq::empty()
    }
}

/// With distinct keys, any entry that matches `s` carries the targets `etable_at(t, s)`.
pub proof fn lemma_etable_at(t: Seq<(u64, Vec<u64>)>, s: u64, i: int)
    requires
        ekeys_distinct(t),
        0 <= i < t.len(),
        t[i].0 == s,
    ensures
        etable_has(t, s),
        etable_at(t, s) == t[i].1@,
{
    let j = choose|j: int| 0 <= j < t.len() && (#[trigger] t[j]).0 == s;
    if i != j {
        assert(t[i].0 != t[j].0);
    }
}

/// Look a state up in an epsilon table, cloning the target list.
pub fn etable_lookup(t: &Vec<(u64, Vec<u64>)>, s: u64) -> (r: Option<Vec<u64>>)
    requires
        ekeys_distinct(t@),
    ensures
        match r {
            Some(v) => etable_has(t@, s) && v@ == etable_at(t@, s),
            None => !etable_has(t@, s),
        },
{
    let mut i: usize = 0;
    while i < t.len()
        invariant
            0 <= i <= t.len(),
            ekeys_distinct(t@),
            forall|j: int| 0 <= j < i ==> (#[trigger] t@[j]).0 != s,
        decreases t.len() - i,
    {
        if t[i].0 == s {
            proof {
                lemma_etable_at(t@, s, i as int);
            }
            let v = t[i].1.clone();
            assert(v@ =~= t@[i as int].1@);
            return Some(v);
        }
        i = i + 1;
    }
    None
}

/// In a duplicate-free sequence, the index of an element it contains is unique,
/// so it coincides with `index_of`.
pub proof fn lemma_index_of_unique(v: Seq<u64>, x: u64, i: int)
    requires
        v.no_duplicates(),
        0 <= i < v.len(),
        v[i] == x,
    ensures
        v.index_of(x) == i,
{
    let j = v.index_of(x);
    assert(v.contains(x));
}

/// `index_of` of a contained element is in range and picks that element out.
pub proof fn lemma_index_of_in(v: Seq<u64>, x: u64)
    requires
        v.contains(x),
    ensures
        0 <= v.index_of(x) < v.len(),
        v[v.index_of(x)] == x,
{
    assert(v.contains(x));
}

/// The position of `x` in a vector that contains it.
pub fn position_of(v: &Vec<u64>, x: u64) -> (r: usize)
    requires
        v@.contains(x),
    ensures
        r < v@.len(),
        v@[r as int] == x,
        v@.no_duplicates() ==> r as int == v@.index_of(x),
{
    let mut i: usize = 0;
    while i < v.len()
        invariant
            0 <= i <= v.len(),
            v@.contains(x),
            forall|j: int| 0 <= j < i ==> v@[j] != x,
        decreases v.len() - i,
    {
        if v[i] == x {
            proof {
                if v@.no_duplicates() {
                    lemma_index_of_unique(v@, x, i as int);
                }
            }
            return i;
        }
        i = i + 1;
    }
    proof {
        let w = choose|w: int| 0 <= w < v@.len() && v@[w] == x;
        assert(v@[w] != x);
    }
    unreached()
}

/// Appending an entry with a fresh key extends a deterministic table:
/// the new key is present, old keys keep their values.
pub proof fn lemma_dtable_push(t: Seq<((u64, u64), u64)>, e: ((u64, u64), u64))
    requires
        dkeys_distinct(t),
        !dtable_has(t, e.0),
    ensures
        dkeys_distinct(t.push(e)),
        dtable_has(t.push(e), e.0),
        dtable_get(t.push(e), e.0) == e.1,
        forall|k: (u64, u64)|
            #[trigger] dtable_has(t.push(e), k) <==> (dtable_has(t, k) || k == e.0),
        forall|k: (u64, u64)|
            dtable_has(t, k) ==> #[trigger] dtable_get(t.push(e), k) == dtable_get(t, k),
{
    let t2 = t.push(e);
    assert forall|i: int, j: int| 0 <= i < j < t2.len() implies (#[trigger] t2[i]).0 != (
    #[trigger] t2[j]).0 by {
        if j == t.len() {
            assert(t2[i] == t[i]);
            assert(!(exists|m: int| 0 <= m < t.len() && (#[trigger] t[m]).0 == e.0));
        } else {
            assert(t2[i] == t[i] && t2[j] == t[j]);
        }
    }
    assert(t2[t.len() as int].0 == e.0);
    lemma_dtable_get(t2, e.0, t.len() as int);
    assert forall|k: (u64, u64)| #[trigger] dtable_has(t2, k) <==> (dtable_has(t, k) || k == e.0) by {
        if dtable_has(t, k) {
            let i = choose|i: int| 0 <= i < t.len() && (#[trigger] t[i]).0 == k;
            assert(t2[i].0 == k);
        }
        if dtable_has(t2, k) && k != e.0 {
            let i = choose|i: int| 0 <= i < t2.len() && (#[trigger] t2[i]).0 == k;
            assert(t[i].0 == k);
        }
    }
    assert forall|k: (u64, u64)| dtable_has(t, k) implies #[trigger] dtable_get(t2, k)
        == dtable_get(t, k) by {
        let i = choose|i: int| 0 <= i < t.len() && (#[trigger] t[i]).0 == k;
        lemma_dtable_get(t, k, i);
        assert(t2[i].0 == k);
        lemma_dtable_get(t2, k, i);
    }
}

/// Appending an entry with a fresh key extends a nondeterministic table.
pub proof fn lemma_ntable_push(t: Seq<((u64, u64), Vec<u64>)>, e: ((u64, u64), Vec<u64>))
    requires
        nkeys_distinct(t),
        !ntable_has(t, e.0),
    ensures
        nkeys_distinct(t.push(e)),
        ntable_has(t.push(e), e.0),
        ntable_at(t.push(e), e.0) == e.1@,
        forall|k: (u64, u64)|
            #[trigger] ntable_has(t.push(e), k) <==> (ntable_has(t, k) || k == e.0),
        forall|k: (u64, u64)| #[trigger] ntable_at(t.push(e), k) == if k == e.0 {
            e.1@
        } else {
            ntable_at(t, k)
        },
{
    let t2 = t.push(e);
    assert forall|i: int, j: int| 0 <= i < j < t2.len() implies (#[trigger] t2[i]).0 != (
    #[trigger] t2[j]).0 by {
        if j == t.len() {
            assert(t2[i] == t[i]);
            assert(!(exists|m: int| 0 <= m < t.len() && (#[trigger] t[m]).0 == e.0));
        } else {
            assert(t2[i] == t[i] && t2[j] == t[j]);
        }
    }
    assert(t2[t.len() as int].0 == e.0);
    lemma_ntable_at(t2, e.0, t.len() as int);
    assert forall|k: (u64, u64)| #[trigger] ntable_has(t2, k) <==> (ntable_has(t, k) || k == e.0) by {
        if ntable_has(t, k) {
            let i = choose|i: int| 0 <= i < t.len() && (#[trigger] t[i]).0 == k;
            assert(t2[i].0 == k);
        }
        if ntable_has(t2, k) && k != e.0 {
            let i = choose|i: int| 0 <= i < t2.len() && (#[trigger] t2[i]).0 == k;
            assert(t[i].0 == k);
        }
    }
    assert forall|k: (u64, u64)| #[trigger] ntable_at(t2, k) == (if k == e.0 {
        e.1@
    } else {
        ntable_at(t, k)
    }) by {
        if k != e.0 {
            if ntable_has(t, k) {
                let i = choose|i: int| 0 <= i < t.len() && (#[trigger] t[i]).0 == k;
                lemma_ntable_at(t, k, i);
                assert(t2[i].0 == k);
                lemma_ntable_at(t2, k, i);
            } else {
                assert(!ntable_has(t2, k));
            }
        }
    }
}

/// Appending an entry with a fresh key extends an epsilon table.
pub proof fn lemma_etable_push(t: Seq<(u64, Vec<u64>)>, e: (u64, Vec<u64>))
    requires
        ekeys_distinct(t),
        !etable_has(t, e.0),
    ensures
        ekeys_distinct(t.push(e)),
        etable_has(t.push(e), e.0),
        etable_at(t.push(e), e.0) == e.1@,
        forall|s: u64| #[trigger] etable_has(t.push(e), s) <==> (etable_has(t, s) || s == e.0),
        forall|s: u64| #[trigger] etable_at(t.push(e), s) == if s == e.0 {
            e.1@
        } else {
            etable_at(t, s)
        },
{
    let t2 = t.push(e);
    assert forall|i: int, j: int| 0 <= i < j < t2.len() implies (#[trigger] t2[i]).0 != (
    #[trigger] t2[j]).0 by {
        if j == t.len() {
            assert(t2[i] == t[i]);
            assert(!(exists|m: int| 0 <= m < t.len() && (#[trigger] t[m]).0 == e.0));
        } else {
            assert(t2[i] == t[i] && t2[j] == t[j]);
        }
    }
    assert(t2[t.len() as int].0 == e.0);
    lemma_etable_at(t2, e.0, t.len() as int);
    assert forall|s: u64| #[trigger] etable_has(t2, s) <==> (etable_has(t, s) || s == e.0) by {
        if etable_has(t, s) {
            let i = choose|i: int| 0 <= i < t.len() && (#[trigger] t[i]).0 == s;
            assert(t2[i].0 == s);
        }
        if etable_has(t2, s) && s != e.0 {
            let i = choose|i: int| 0 <= i < t2.len() && (#[trigger] t2[i]).0 == s;
            assert(t[i].0 == s);
        }
    }
    assert forall|s: u64| #[trigger] etable_at(t2, s) == (if s == e.0 {
        e.1@
    } else {
        etable_at(t, s)
    }) by {
        if s != e.0 {
            if etable_has(t, s) {
                let i = choose|i: int| 0 <= i < t.len() && (#[trigger] t[i]).0 == s;
                lemma_etable_at(t, s, i);
                assert(t2[i].0 == s);
                lemma_etable_at(t2, s, i);
            } else {
                assert(!etable_has(t2, s));
            }
        }
    }
}

/// An entry-by-entry copy of a deterministic transition table.
pub fn copy_dtable(t: &Vec<((u64, u64), u64)>) -> (r: Vec<((u64, u64), u64)>)
    ensures
        r@ == t@,
{
    let mut r: Vec<((u64, u64), u64)> = Vec::new();
    let mut i: usize = 0;
    while i < t.len()
        invariant
            0 <= i <= t@.len(),
            r@ == t@.subrange(0, i as int),
        decreases t@.len() - i,
    {
        r.push(t[i]);
        proof {
            assert(t@.subrange(0, i as int).push(t@[i as int]) =~= t@.subrange(0, i as int + 1));
        }
        i = i + 1;
    }
    proof {
        assert(t@.subrange(0, t@.len() as int) =~= t@);
    }
    r
}

/// An element-by-element copy of a vector of symbols or states.
pub fn copy_values(v: &Vec<u64>) -> (r: Vec<u64>)
    ensures
        r@ == v@,
{
    let mut r: Vec<u64> = Vec::new();
    let mut i: usize = 0;
    while i < v.len()
        invariant
            0 <= i <= v@.len(),
            r@ == v@.subrange(0, i as int),
        decreases v@.len() - i,
    {
        r.push(v[i]);
        proof {
            assert(v@.subrange(0, i as int).push(v@[i as int]) =~= v@.subrange(0, i as int + 1));
        }
        i = i + 1;
    }
    proof {
        assert(v@.subrange(0, v@.len() as int) =~= v@);
    }
    r
}

/// Does the vector hold pairwise-distinct elements?
pub fn vec_no_dups(v: &Vec<u64>) -> (r: bool)
    ensures
        r == v@.no_duplicates(),
{
    let mut i: usize = 0;
    while i < v.len()
        invariant
            0 <= i <= v.len(),
            forall|p: int, q: int| 0 <= p < q < v@.len() && p < i ==> v@[p] != v@[q],
        decreases v.len() - i,
    {
        let mut j: usize = i + 1;
        while j < v.len()
            invariant
                i < j <= v.len() || (i + 1 == j && j > v.len()),
                i < v.len(),
                forall|q: int| i < q < j ==> v@[i as int] != v@[q],
            decreases v.len() - j,
        {
            if v[i] == v[j] {
                return false;
            }
            j = j + 1;
        }
        i = i + 1;
    }
    true
}

/// Is every element of `a` also an element of `b`?
pub fn vec_all_in(a: &Vec<u64>, b: &Vec<u64>) -> (r: bool)
    ensures
        r == (forall|x: u64| a@.contains(x) ==> b@.contains(x)),
{
    let mut i: usize = 0;
    while i < a.len()
        invariant
            0 <= i <= a.len(),
            forall|j: int| 0 <= j < i ==> b@.contains(#[trigger] a@[j]),
        decreases a.len() - i,
    {
        if !vec_contains(b, a[i]) {
            assert(a@.contains(a@[i as int]));
            return false;
        }
        i = i + 1;
    }
    assert forall|x: u64| a@.contains(x) implies b@.contains(x) by {
        let j = choose|j: int| 0 <= j < a@.len() && a@[j] == x;
        assert(b@.contains(a@[j]));
    }
    true
}

/// Do the two vectors hold the same set of elements?
pub fn set_vec_equal(a: &Vec<u64>, b: &Vec<u64>) -> (r: bool)
    ensures
        r == (a@.to_set() == b@.to_set()),
{
    let fwd = vec_all_in(a, b);
    let bwd = vec_all_in(b, a);
    if fwd && bwd {
        assert(a@.to_set() =~= b@.to_set());
        true
    } else {
        proof {
            if a@.to_set() == b@.to_set() {
                assert forall|x: u64| a@.contains(x) implies b@.contains(x) by {
                    assert(a@.to_set().contains(x));
                }
                assert forall|x: u64| b@.contains(x) implies a@.contains(x) by {
                    assert(b@.to_set().contains(x));
                }
            }
        }
        false
    }
}

} // verus!
