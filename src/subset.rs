//! Subset construction: from an epsilon-NFA and an alphabet to a DFA whose
//! states stand for the sets of NFA states reachable on the same input.
use vstd::prelude::*;
use vstd::arithmetic::power2::pow2;
use crate::lexer::DFA;
use crate::nfa::{NFA, join_labels_spec};
use crate::stateset::{is_state_set, lemma_family_bound, lemma_state_set_unique};

verus! {

/// The views of a list of state sets.
pub open spec fn set_views(sets: Seq<Vec<usize>>) -> Seq<Seq<usize>> {
    sets.map_values(|v: Vec<usize>| v@)
}

/// The transition of DFA state `i` on `c` is the one that the subset
/// construction owes: to the state of `sets` that holds the closure of the
/// move on `c`, or none where that move is empty.
pub open spec fn transition_ok(nfa: NFA, dfa: DFA, sets: Seq<Seq<usize>>, i: usize, c: char) -> bool {
    match dfa.next(i, c) {
        Some(j) => {
            &&& (j as int) < sets.len()
            &&& nfa.move_on(sets[i as int].to_set(), c) != Set::<usize>::empty()
            &&& sets[j as int].to_set() == nfa.step_set(sets[i as int].to_set(), c)
        },
        None => nfa.move_on(sets[i as int].to_set(), c) == Set::<usize>::empty(),
    }
}

/// DFA state `i` is accepting exactly when its set holds an NFA accept
/// state, with the labels of those states joined in ascending state order.
pub open spec fn accept_ok(nfa: NFA, dfa: DFA, sets: Seq<Seq<usize>>, i: usize) -> bool {
    dfa.label(i) == if nfa.has_accept(sets[i as int].to_set()) {
        Some(join_labels_spec(nfa.labels_in(sets[i as int])))
    } else {
        None
    }
}

/// Pair `(p1, a1)` comes before `(p2, a2)`: an earlier state, or the same
/// state and an earlier position in the alphabet.
pub open spec fn pair_before(p1: int, a1: int, p2: int, a2: int) -> bool {
    p1 < p2 || (p1 == p2 && a1 < a2)
}

/// Symbol `alphabet[a]` leads from the set `known[p]` nowhere, or to a set
/// that is already among `known`.
pub open spec fn step_known(nfa: NFA, alphabet: Seq<char>, known: Seq<Seq<usize>>, p: int, a: int) -> bool {
    let from = known[p].to_set();
    ||| nfa.move_on(from, alphabet[a]) == Set::<usize>::empty()
    ||| exists|i: int| 0 <= i < known.len() && #[trigger] known[i].to_set() == nfa.step_set(from, alphabet[a])
}

/// The last set of `prefix` is reached from `prefix[p]` on `alphabet[a]`,
/// with `p` numbered before it, and every pair before `(p, a)` leads nowhere
/// or to an earlier set: it is discovered by `(p, a)` in breadth-first order.
pub open spec fn first_reached_by(nfa: NFA, alphabet: Seq<char>, prefix: Seq<Seq<usize>>, p: int, a: int) -> bool {
    let j = prefix.len() - 1;
    let from = prefix[p].to_set();
    &&& 0 <= p < j
    &&& 0 <= a < alphabet.len()
    &&& nfa.move_on(from, alphabet[a]) != Set::<usize>::empty()
    &&& prefix[j].to_set() == nfa.step_set(from, alphabet[a])
    &&& forall|p2: int, a2: int|
        0 <= p2 && 0 <= a2 < alphabet.len() && pair_before(p2, a2, p, a) ==> #[trigger] step_known(
            nfa,
            alphabet,
            prefix.drop_last(),
            p2,
            a2,
        )
}

/// The last set of `prefix` is discovered in breadth-first order.
pub open spec fn discovered(nfa: NFA, alphabet: Seq<char>, prefix: Seq<Seq<usize>>) -> bool {
    exists|p: int, a: int| first_reached_by(nfa, alphabet, prefix, p, a)
}

/// `dfa` is the subset construction of `nfa` over `alphabet`, where DFA
/// state `i` stands for the NFA states of `sets[i]`: state 0 stands for the
/// closure of the NFA start state, no two states stand for the same set,
/// each later state is numbered in breadth-first order of discovery, and
/// only the states of `sets` and the symbols of `alphabet` have transitions
/// or labels.
pub open spec fn is_subset_dfa(nfa: NFA, alphabet: Seq<char>, dfa: DFA, sets: Seq<Seq<usize>>) -> bool {
    &&& 0 < sets.len() <= usize::MAX
    &&& forall|j: int| 2 <= j <= sets.len() ==> discovered(nfa, alphabet, #[trigger] sets.subrange(0, j))
    &&& dfa.start == 0
    &&& sets[0].to_set() == nfa.closure(set![nfa.start])
    &&& forall|i: int| 0 <= i < sets.len() ==> is_state_set(#[trigger] sets[i])
    &&& forall|i: int, j: int| 0 <= i < j < sets.len() ==> sets[i] != sets[j]
    &&& forall|i: usize, c: char|
        #![trigger dfa.next(i, c)]
        (i as int) < sets.len() && alphabet.contains(c) ==> transition_ok(nfa, dfa, sets, i, c)
    &&& forall|i: usize, c: char|
        #![trigger dfa.next(i, c)]
        !((i as int) < sets.len() && alphabet.contains(c)) ==> dfa.next(i, c) is None
    &&& forall|i: usize| #![trigger dfa.label(i)] (i as int) < sets.len() ==> accept_ok(nfa, dfa, sets, i)
    &&& forall|i: usize| #![trigger dfa.label(i)] (i as int) >= sets.len() ==> dfa.label(i) is None
}

/// Whether `a` and `b` are the same state set.
fn same_states(a: &Vec<usize>, b: &Vec<usize>) -> (r: bool)
    ensures
        r == (a@ == b@),
{
    if a.len() != b.len() {
        return false;
    }
    let mut k: usize = 0;
    while k < a.len()
        invariant
            k <= a@.len(),
            a@.len() == b@.len(),
            forall|m: int| 0 <= m < k ==> a@[m] == b@[m],
        decreases a@.len() - k,
    {
        if a[k] != b[k] {
            return false;
        }
        k += 1;
    }
    assert(a@ =~= b@);
    true
}

/// The index of `t` among `sets`, if it is there.
fn find_set(sets: &Vec<Vec<usize>>, t: &Vec<usize>) -> (r: Option<usize>)
    ensures
        match r {
            Some(j) => j < sets@.len() && sets@[j as int]@ == t@,
            None => forall|j: int| 0 <= j < sets@.len() ==> sets@[j]@ != t@,
        },
{
    let mut j: usize = 0;
    while j < sets.len()
        invariant
            j <= sets@.len(),
            forall|m: int| 0 <= m < j ==> sets@[m]@ != t@,
        decreases sets@.len() - j,
    {
        if same_states(&sets[j], t) {
            return Some(j);
        }
        j += 1;
    }
    None
}

/// Distinct state sets drawn from `u` number at most 2^|u|.
proof fn lemma_sets_bound(sets: Seq<Seq<usize>>, u: Set<usize>)
    requires
        u.finite(),
        forall|i: int| 0 <= i < sets.len() ==> is_state_set(#[trigger] sets[i]),
        forall|i: int| 0 <= i < sets.len() ==> (#[trigger] sets[i]).to_set().subset_of(u),
        forall|i: int, j: int| 0 <= i < j < sets.len() ==> sets[i] != sets[j],
    ensures
        sets.len() <= pow2(u.len()),
{
    let fam = Seq::new(sets.len(), |i: int| sets[i].to_set());
    assert(fam.no_duplicates()) by {
        assert forall|i: int, j: int| 0 <= i < fam.len() && 0 <= j < fam.len() && i != j
            implies fam[i] != fam[j] by {
            if fam[i] == fam[j] {
                assert forall|x: usize| sets[i].contains(x) <==> sets[j].contains(x) by {
                    assert(sets[i].to_set().contains(x) == sets[j].to_set().contains(x));
                }
                lemma_state_set_unique(sets[i], sets[j]);
                if i < j {
                    assert(sets[i] != sets[j]);
                } else {
                    assert(sets[j] != sets[i]);
                }
            }
        }
    }
    fam.unique_seq_to_set();
    vstd::seq_lib::seq_to_set_is_finite(fam);
    assert forall|s: Set<usize>| #[trigger] fam.to_set().contains(s) implies s.subset_of(u) by {
        let i = fam.index_of(s);
        assert(sets[i].to_set().subset_of(u));
    }
    lemma_family_bound(fam.to_set(), u);
}

/// Builds the DFA of `nfa` over `alphabet` by breadth-first subset
/// construction, and returns it with the NFA state set that each DFA state
/// stands for. States are numbered in order of discovery: 0 for the closure
/// of the start state, then each new set as the symbols of `alphabet`, in
/// the order given, reach it from the states already numbered. A symbol
/// that leads from a state's set to no NFA state gets no transition: the
/// DFA is partial and has no dead state.
pub fn determinize(nfa: &NFA, alphabet: &Vec<char>) -> (r: (DFA, Vec<Vec<usize>>))
    ensures
        is_subset_dfa(*nfa, alphabet@, r.0, set_views(r.1@)),
{
    let ghost u = set![nfa.start] + nfa.targets();
    proof {
        vstd::seq_lib::seq_to_set_is_finite(Seq::new(nfa.transitions@.len(), |k: int| nfa.transitions@[k].2));
    }
    let mut seed: Vec<usize> = Vec::new();
    seed.push(nfa.start);
    assert(seed@.to_set() =~= set![nfa.start]) by {
        assert(seed@[0] == nfa.start);
    }
    let first = nfa.epsilon_closure(&seed);
    proof {
        nfa.lemma_closure_within(set![nfa.start]);
    }
    let mut dfa = DFA::new(0);
    match nfa.join_labels(&first) {
        Some(l) => dfa.add_accept(0, l),
        None => {},
    }
    let mut sets: Vec<Vec<usize>> = Vec::new();
    sets.push(first);
    proof {
        lemma_sets_bound(set_views(sets@), u);
    }
    let mut k: usize = 0;
    while k < sets.len()
        invariant
            u == set![nfa.start] + nfa.targets(),
            u.finite(),
            k <= sets@.len(),
            sets@.len() > 0,
            sets@.len() <= pow2(u.len()),
            dfa.start == 0,
            sets@[0]@.to_set() == nfa.closure(set![nfa.start]),
            forall|i: int| 0 <= i < sets@.len() ==> is_state_set(#[trigger] sets@[i]@),
            forall|i: int| 0 <= i < sets@.len() ==> (#[trigger] sets@[i]@).to_set().subset_of(u),
            forall|i: int, j: int| 0 <= i < j < sets@.len() ==> sets@[i]@ != sets@[j]@,
            forall|j: int|
                2 <= j <= sets@.len() ==> discovered(*nfa, alphabet@, #[trigger] set_views(sets@).subrange(0, j)),
            forall|i: usize, c: char|
                #![trigger dfa.next(i, c)]
                (i as int) < k && alphabet@.contains(c) ==> transition_ok(*nfa, dfa, set_views(sets@), i, c),
            forall|i: usize, c: char|
                #![trigger dfa.next(i, c)]
                !((i as int) < k && alphabet@.contains(c)) ==> dfa.next(i, c) is None,
            forall|i: usize|
                #![trigger dfa.label(i)]
                (i as int) < sets@.len() ==> accept_ok(*nfa, dfa, set_views(sets@), i),
            forall|i: usize| #![trigger dfa.label(i)] (i as int) >= sets@.len() ==> dfa.label(i) is None,
        decreases pow2(u.len()) - k,
    {
        let mut a: usize = 0;
        while a < alphabet.len()
            invariant
                u == set![nfa.start] + nfa.targets(),
                u.finite(),
                k < sets@.len(),
                a <= alphabet@.len(),
                sets@.len() <= pow2(u.len()),
                dfa.start == 0,
                sets@[0]@.to_set() == nfa.closure(set![nfa.start]),
                forall|i: int| 0 <= i < sets@.len() ==> is_state_set(#[trigger] sets@[i]@),
                forall|i: int| 0 <= i < sets@.len() ==> (#[trigger] sets@[i]@).to_set().subset_of(u),
                forall|i: int, j: int| 0 <= i < j < sets@.len() ==> sets@[i]@ != sets@[j]@,
                forall|j: int|
                    2 <= j <= sets@.len() ==> discovered(*nfa, alphabet@, #[trigger] set_views(sets@).subrange(0, j)),
                forall|i: usize, c: char|
                    #![trigger dfa.next(i, c)]
                    ((i as int) < k && alphabet@.contains(c)) || (i == k && alphabet@.subrange(
                        0,
                        a as int,
                    ).contains(c)) ==> transition_ok(*nfa, dfa, set_views(sets@), i, c),
                forall|i: usize, c: char|
                    #![trigger dfa.next(i, c)]
                    !((i as int) < k && alphabet@.contains(c)) && !(i == k && alphabet@.subrange(
                        0,
                        a as int,
                    ).contains(c)) ==> dfa.next(i, c) is None,
                forall|i: usize|
                    #![trigger dfa.label(i)]
                    (i as int) < sets@.len() ==> accept_ok(*nfa, dfa, set_views(sets@), i),
                forall|i: usize| #![trigger dfa.label(i)] (i as int) >= sets@.len() ==> dfa.label(i) is None,
            decreases alphabet@.len() - a,
        {
            let c = alphabet[a];
            let ghost from = sets@[k as int]@.to_set();
            let m = nfa.move_set(&sets[k], c);
            proof {
                nfa.lemma_move_within(from, c);
                if m@.len() > 0 {
                    assert(m@.to_set().contains(m@[0]));
                } else {
                    assert(m@.to_set() =~= Set::<usize>::empty());
                }
            }
            if m.len() > 0 {
                let t = nfa.epsilon_closure(&m);
                proof {
                    nfa.lemma_closure_within(m@.to_set());
                }
                let j = match find_set(&sets, &t) {
                    Some(j) => j,
                    None => {
                        let n = sets.len();
                        let ghost old_sets = set_views(sets@);
                        let ghost old_dfa = dfa;
                        let ghost old_raw = sets@;
                        match nfa.join_labels(&t) {
                            Some(l) => dfa.add_accept(n, l),
                            None => {},
                        }
                        sets.push(t);
                        proof {
                            let views = set_views(sets@);
                            assert(views =~= old_sets.push(t@));
                            assert forall|i: usize|
                                #![trigger dfa.label(i)]
                                (i as int) < sets@.len() implies accept_ok(*nfa, dfa, views, i) by {
                                if i < n {
                                    assert(old_dfa.label(i) == dfa.label(i));
                                    assert(accept_ok(*nfa, old_dfa, old_sets, i));
                                    assert(views[i as int] == old_sets[i as int]);
                                }
                            }
                            assert forall|i: usize|
                                #![trigger dfa.label(i)]
                                (i as int) >= sets@.len() implies dfa.label(i) is None by {
                                assert(old_dfa.label(i) == dfa.label(i));
                            }
                            assert forall|i: usize, d: char|
                                #![trigger dfa.next(i, d)]
                                ((i as int) < k && alphabet@.contains(d)) || (i == k
                                    && alphabet@.subrange(0, a as int).contains(d)) implies transition_ok(
                                    *nfa,
                                    dfa,
                                    views,
                                    i,
                                    d,
                                ) by {
                                assert(old_dfa.next(i, d) == dfa.next(i, d));
                                assert(transition_ok(*nfa, old_dfa, old_sets, i, d));
                                assert(views[i as int] == old_sets[i as int]);
                                if let Some(j2) = dfa.next(i, d) {
                                    assert(views[j2 as int] == old_sets[j2 as int]);
                                }
                            }
                            assert forall|i: usize, d: char|
                                #![trigger dfa.next(i, d)]
                                !((i as int) < k && alphabet@.contains(d)) && !(i == k
                                    && alphabet@.subrange(0, a as int).contains(d)) implies dfa.next(
                                    i,
                                    d,
                                ) is None by {
                                assert(old_dfa.next(i, d) == dfa.next(i, d));
                            }
                            assert forall|i: int| 0 <= i < sets@.len() implies is_state_set(
                                #[trigger] sets@[i]@,
                            ) by {
                                if i < n {
                                    assert(sets@[i] == old_raw[i]);
                                }
                            }
                            lemma_sets_bound(views, u);
                            assert forall|j: int|
                                2 <= j <= sets@.len() implies discovered(*nfa, alphabet@, #[trigger] views.subrange(0, j)) by {
                                if j <= n {
                                    assert(views.subrange(0, j) =~= old_sets.subrange(0, j));
                                } else {
                                    let prefix = views.subrange(0, j);
                                    assert(prefix.drop_last() =~= old_sets);
                                    assert(prefix[k as int] == old_sets[k as int]);
                                    assert forall|p2: int, a2: int|
                                        0 <= p2 && 0 <= a2 < alphabet@.len() && pair_before(p2, a2, k as int, a as int)
                                        implies #[trigger] step_known(*nfa, alphabet@, prefix.drop_last(), p2, a2) by {
                                        let d = alphabet@[a2];
                                        let pu = p2 as usize;
                                        if p2 == k {
                                            assert(alphabet@.subrange(0, a as int)[a2] == d);
                                        }
                                        assert(alphabet@.contains(d));
                                        assert(transition_ok(*nfa, old_dfa, old_sets, pu, d));
                                        if let Some(j2) = old_dfa.next(pu, d) {
                                            assert(old_sets[j2 as int].to_set() == nfa.step_set(old_sets[p2].to_set(), d));
                                        }
                                    }
                                    assert(first_reached_by(*nfa, alphabet@, prefix, k as int, a as int));
                                }
                            }
                        }
                        n
                    },
                };
                let ghost before = dfa;
                dfa.add_transition(k, c, j);
                proof {
                    let views = set_views(sets@);
                    assert(views[j as int] == t@);
                    assert(views[k as int] == sets@[k as int]@);
                    assert forall|i: usize, d: char|
                        #![trigger dfa.next(i, d)]
                        ((i as int) < k && alphabet@.contains(d)) || (i == k && alphabet@.subrange(
                            0,
                            a + 1,
                        ).contains(d)) implies transition_ok(*nfa, dfa, views, i, d) by {
                        if i == k && d == c {
                        } else {
                            assert(before.next(i, d) == dfa.next(i, d));
                            if i == k {
                                let p = alphabet@.subrange(0, a + 1).index_of(d);
                                assert(alphabet@.subrange(0, a as int)[p] == d);
                            }
                            assert(transition_ok(*nfa, before, views, i, d));
                        }
                    }
                    assert forall|i: usize, d: char|
                        #![trigger dfa.next(i, d)]
                        !((i as int) < k && alphabet@.contains(d)) && !(i == k && alphabet@.subrange(
                            0,
                            a + 1,
                        ).contains(d)) implies dfa.next(i, d) is None by {
                        if i == k && d == c {
                            assert(alphabet@.subrange(0, a + 1)[a as int] == c);
                        } else {
                            assert(before.next(i, d) == dfa.next(i, d));
                            if i == k && alphabet@.subrange(0, a as int).contains(d) {
                                let p = alphabet@.subrange(0, a as int).index_of(d);
                                assert(alphabet@.subrange(0, a + 1)[p] == d);
                            }
                        }
                    }
                    assert forall|i: usize|
                        #![trigger dfa.label(i)]
                        (i as int) < sets@.len() implies accept_ok(*nfa, dfa, views, i) by {
                        assert(before.label(i) == dfa.label(i));
                    }
                    assert forall|i: usize| #![trigger dfa.label(i)] (i as int) >= sets@.len() implies dfa.label(i) is None by {
                        assert(before.label(i) == dfa.label(i));
                    }
                }
            } else {
                proof {
                    let views = set_views(sets@);
                    assert(views[k as int] == sets@[k as int]@);
                    assert forall|i: usize, d: char|
                        #![trigger dfa.next(i, d)]
                        ((i as int) < k && alphabet@.contains(d)) || (i == k && alphabet@.subrange(
                            0,
                            a + 1,
                        ).contains(d)) implies transition_ok(*nfa, dfa, views, i, d) by {
                        if i == k && alphabet@.subrange(0, a + 1).contains(d) && !alphabet@.subrange(0, a as int).contains(d) {
                            let p = alphabet@.subrange(0, a + 1).index_of(d);
                            if p < a {
                                assert(alphabet@.subrange(0, a as int)[p] == d);
                            }
                            assert(d == c);
                        }
                    }
                    assert forall|i: usize, d: char|
                        #![trigger dfa.next(i, d)]
                        !((i as int) < k && alphabet@.contains(d)) && !(i == k && alphabet@.subrange(
                            0,
                            a + 1,
                        ).contains(d)) implies dfa.next(i, d) is None by {
                        if i == k && alphabet@.subrange(0, a as int).contains(d) {
                            let p = alphabet@.subrange(0, a as int).index_of(d);
                            assert(alphabet@.subrange(0, a + 1)[p] == d);
                        }
                    }
                }
            }
            a += 1;
        }
        proof {
            assert(alphabet@.subrange(0, alphabet@.len() as int) =~= alphabet@);
        }
        k += 1;
    }
    (dfa, sets)
}

/// The DFA of `nfa` over `alphabet` by subset construction (see `determinize`).
pub fn subset_construction(nfa: &NFA, alphabet: &Vec<char>) -> (r: DFA)
    ensures
        exists|sets: Seq<Seq<usize>>| is_subset_dfa(*nfa, alphabet@, r, sets),
{
    let (dfa, sets) = determinize(nfa, alphabet);
    dfa
}

/// Reading `w` over the alphabet, the DFA is in the state whose set is the
/// set of NFA states reachable on `w`, or stuck exactly where that set is empty.
proof fn lemma_run_tracks_reach(
    nfa: NFA,
    alphabet: Seq<char>,
    dfa: DFA,
    sets: Seq<Seq<usize>>,
    w: Seq<char>,
)
    requires
        is_subset_dfa(nfa, alphabet, dfa, sets),
        forall|k: int| 0 <= k < w.len() ==> alphabet.contains(#[trigger] w[k]),
    ensures
        match dfa.run(dfa.start, w) {
            Some(j) => (j as int) < sets.len() && sets[j as int].to_set() == nfa.reach(w),
            None => nfa.reach(w) == Set::<usize>::empty(),
        },
    decreases w.len(),
{
    if w.len() > 0 {
        let w0 = w.drop_last();
        let c = w.last();
        assert forall|k: int| 0 <= k < w0.len() implies alphabet.contains(#[trigger] w0[k]) by {
            assert(w0[k] == w[k]);
        }
        lemma_run_tracks_reach(nfa, alphabet, dfa, sets, w0);
        assert(alphabet.contains(w[w.len() - 1]));
        nfa.lemma_closure_empty();
        match dfa.run(dfa.start, w0) {
            Some(i) => {
                assert(transition_ok(nfa, dfa, sets, i, c));
            },
            None => {
                assert(nfa.move_on(Set::<usize>::empty(), c) =~= Set::<usize>::empty());
            },
        }
    }
}

/// Language equivalence: on every word over the alphabet, a DFA built by
/// subset construction accepts exactly when some path of the NFA from its
/// start state, epsilon edges included anywhere, reads the word and ends in
/// an accept state.
pub proof fn lemma_language_equivalence(nfa: NFA, alphabet: Seq<char>, dfa: DFA, w: Seq<char>)
    requires
        exists|sets: Seq<Seq<usize>>| is_subset_dfa(nfa, alphabet, dfa, sets),
        forall|k: int| 0 <= k < w.len() ==> alphabet.contains(#[trigger] w[k]),
    ensures
        dfa.accepts(w) == nfa.accepts(w),
{
    let sets = choose|sets: Seq<Seq<usize>>| is_subset_dfa(nfa, alphabet, dfa, sets);
    lemma_run_tracks_reach(nfa, alphabet, dfa, sets, w);
    match dfa.run(dfa.start, w) {
        Some(j) => {
            assert(accept_ok(nfa, dfa, sets, j));
        },
        None => {},
    }
}

/// Distinct state sets of a subset construction hold distinct NFA states.
proof fn lemma_distinct_members(sets: Seq<Seq<usize>>, i: int, j: int)
    requires
        forall|m: int| 0 <= m < sets.len() ==> is_state_set(#[trigger] sets[m]),
        forall|m: int, n: int| 0 <= m < n < sets.len() ==> sets[m] != sets[n],
        0 <= i < sets.len(),
        0 <= j < sets.len(),
        i != j,
    ensures
        sets[i].to_set() != sets[j].to_set(),
{
    if sets[i].to_set() == sets[j].to_set() {
        assert forall|x: usize| sets[i].contains(x) <==> sets[j].contains(x) by {
            assert(sets[i].to_set().contains(x) == sets[j].to_set().contains(x));
        }
        lemma_state_set_unique(sets[i], sets[j]);
        if i < j {
            assert(sets[i] != sets[j]);
        } else {
            assert(sets[j] != sets[i]);
        }
    }
}

/// Two sorted state sets with the same members are equal.
proof fn lemma_same_members(s1: Seq<usize>, s2: Seq<usize>)
    requires
        is_state_set(s1),
        is_state_set(s2),
        s1.to_set() == s2.to_set(),
    ensures
        s1 == s2,
{
    assert forall|x: usize| s1.contains(x) <==> s2.contains(x) by {
        assert(s1.to_set().contains(x) == s1.contains(x));
        assert(s2.to_set().contains(x) == s2.contains(x));
    }
    lemma_state_set_unique(s1, s2);
}

/// Two subset constructions of the same NFA over the same alphabet agree
/// on their first `n` state sets.
proof fn lemma_prefix_agrees(
    nfa: NFA,
    alphabet: Seq<char>,
    d1: DFA,
    s1: Seq<Seq<usize>>,
    d2: DFA,
    s2: Seq<Seq<usize>>,
    n: int,
)
    requires
        is_subset_dfa(nfa, alphabet, d1, s1),
        is_subset_dfa(nfa, alphabet, d2, s2),
        0 <= n <= s1.len(),
        n <= s2.len(),
    ensures
        s1.subrange(0, n) == s2.subrange(0, n),
    decreases n,
{
    if n == 1 {
        lemma_same_members(s1[0], s2[0]);
        assert(s1.subrange(0, 1) =~= s2.subrange(0, 1));
    } else if n > 1 {
        lemma_prefix_agrees(nfa, alphabet, d1, s1, d2, s2, n - 1);
        let j = n - 1;
        let pre1 = s1.subrange(0, n);
        let pre2 = s2.subrange(0, n);
        let known = s1.subrange(0, j);
        assert(pre1.drop_last() =~= known);
        assert(pre2.drop_last() =~= s2.subrange(0, j));
        assert(discovered(nfa, alphabet, pre1));
        assert(discovered(nfa, alphabet, pre2));
        let (p1, a1) = choose|p: int, a: int| first_reached_by(nfa, alphabet, pre1, p, a);
        let (p2, a2) = choose|p: int, a: int| first_reached_by(nfa, alphabet, pre2, p, a);
        assert(known[p1] == s1[p1] && known[p2] == s1[p2]);
        assert(s2.subrange(0, j)[p1] == s2[p1] && s2.subrange(0, j)[p2] == s2[p2]);
        let t1 = nfa.step_set(s1[p1].to_set(), alphabet[a1]);
        let t2 = nfa.step_set(s1[p2].to_set(), alphabet[a2]);
        assert(s1[j].to_set() == t1);
        assert(s2[j].to_set() == t2);
        if pair_before(p1, a1, p2, a2) {
            assert(step_known(nfa, alphabet, pre2.drop_last(), p1, a1));
            let i = choose|i: int| 0 <= i < known.len() && #[trigger] known[i].to_set() == t1;
            assert(known[i] == s1[i]);
            lemma_distinct_members(s1, i, j);
        } else if pair_before(p2, a2, p1, a1) {
            assert(step_known(nfa, alphabet, pre1.drop_last(), p2, a2));
            let i = choose|i: int| 0 <= i < known.len() && #[trigger] known[i].to_set() == t2;
            assert(known[i] == s1[i] && known[i] == s2[i]);
            lemma_distinct_members(s2, i, j);
        } else {
            assert(p1 == p2 && a1 == a2);
            lemma_same_members(s1[j], s2[j]);
        }
        assert(pre1 =~= pre2);
    } else {
        assert(s1.subrange(0, n) =~= s2.subrange(0, n));
    }
}

/// With `s1` a prefix of `s2`, the construction `s1` is complete, so `s2`
/// has no further set.
proof fn lemma_no_longer(
    nfa: NFA,
    alphabet: Seq<char>,
    d1: DFA,
    s1: Seq<Seq<usize>>,
    d2: DFA,
    s2: Seq<Seq<usize>>,
)
    requires
        is_subset_dfa(nfa, alphabet, d1, s1),
        is_subset_dfa(nfa, alphabet, d2, s2),
        s1.len() <= s2.len(),
        s1 == s2.subrange(0, s1.len() as int),
    ensures
        s1.len() == s2.len(),
{
    if s1.len() < s2.len() {
        let j = s1.len() as int;
        let pre = s2.subrange(0, j + 1);
        assert(discovered(nfa, alphabet, pre));
        let (p, a) = choose|p: int, a: int| first_reached_by(nfa, alphabet, pre, p, a);
        let c = alphabet[a];
        assert(pre[p] == s1[p]);
        assert(alphabet.contains(c));
        let pu = p as usize;
        assert(transition_ok(nfa, d1, s1, pu, c));
        let j1 = d1.next(pu, c)->Some_0;
        assert(s1[j1 as int] == s2[j1 as int]);
        assert(pre[j] == s2[j]);
        lemma_distinct_members(s2, j1 as int, j);
    }
}

/// Determinism: two subset constructions of the same NFA over the same
/// alphabet, in the same order, have the same state sets, the same
/// transitions and the same accept labels, state for state.
pub proof fn lemma_construction_deterministic(
    nfa: NFA,
    alphabet: Seq<char>,
    d1: DFA,
    s1: Seq<Seq<usize>>,
    d2: DFA,
    s2: Seq<Seq<usize>>,
)
    requires
        is_subset_dfa(nfa, alphabet, d1, s1),
        is_subset_dfa(nfa, alphabet, d2, s2),
    ensures
        s1 == s2,
        d1.start == d2.start,
        forall|i: usize, c: char| #[trigger] d1.next(i, c) == d2.next(i, c),
        forall|i: usize| #[trigger] d1.label(i) == d2.label(i),
{
    if s1.len() <= s2.len() {
        lemma_prefix_agrees(nfa, alphabet, d1, s1, d2, s2, s1.len() as int);
        assert(s1.subrange(0, s1.len() as int) =~= s1);
        lemma_no_longer(nfa, alphabet, d1, s1, d2, s2);
        assert(s2.subrange(0, s2.len() as int) =~= s2);
    } else {
        lemma_prefix_agrees(nfa, alphabet, d1, s1, d2, s2, s2.len() as int);
        assert(s2.subrange(0, s2.len() as int) =~= s2);
        lemma_no_longer(nfa, alphabet, d2, s2, d1, s1);
        assert(s1.subrange(0, s1.len() as int) =~= s1);
    }
    assert forall|i: usize, c: char| #[trigger] d1.next(i, c) == d2.next(i, c) by {
        if (i as int) < s1.len() && alphabet.contains(c) {
            assert(transition_ok(nfa, d1, s1, i, c));
            assert(transition_ok(nfa, d2, s2, i, c));
            if let Some(j1) = d1.next(i, c) {
                let j2 = d2.next(i, c)->Some_0;
                if j1 != j2 {
                    lemma_distinct_members(s1, j1 as int, j2 as int);
                }
            }
        }
    }
    assert forall|i: usize| #[trigger] d1.label(i) == d2.label(i) by {
        if (i as int) < s1.len() {
            assert(accept_ok(nfa, d1, s1, i));
            assert(accept_ok(nfa, d2, s2, i));
        }
    }
}

} // verus!
