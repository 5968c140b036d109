//! Nondeterministic finite automata with epsilon transitions.
use std::collections::HashMap;
use vstd::prelude::*;
use vstd::string::StringExecFns;
use crate::stateset::{is_state_set, lemma_push_members, set_contains, set_insert};

verus! {

broadcast use vstd::std_specs::hash::group_hash_axioms;

/// The labels joined in order, each pair separated by a comma and a space.
pub open spec fn join_labels_spec(ls: Seq<Seq<char>>) -> Seq<char>
    decreases ls.len(),
{
    if ls.len() == 0 {
        Seq::empty()
    } else if ls.len() == 1 {
        ls[0]
    } else {
        join_labels_spec(ls.drop_last()) + seq![',', ' '] + ls.last()
    }
}

/// A nondeterministic finite automaton with epsilon transitions.
///
/// Each entry `(from, symbol, to)` of `transitions` is one edge; a `None`
/// symbol marks an epsilon edge. `accept` maps each accept state to its label.
#[derive(Debug, Clone)]
pub struct NFA {
    pub transitions: Vec<(usize, Option<char>, usize)>,
    pub start: usize,
    pub accept: HashMap<usize, String>,
}

impl NFA {
    /// The states reached from a member of `x` by one epsilon edge.
    pub open spec fn eps_successors(&self, x: Set<usize>) -> Set<usize> {
        Set::new(
            |q: usize|
                exists|k: int|
                    0 <= k < self.transitions@.len() && x.contains(#[trigger] self.transitions@[k].0)
                        && self.transitions@[k].1 is None && self.transitions@[k].2 == q,
        )
    }

    /// The states reached from `x` by at most `n` epsilon edges.
    pub open spec fn eps_within(&self, x: Set<usize>, n: nat) -> Set<usize>
        decreases n,
    {
        if n == 0 {
            x
        } else {
            let y = self.eps_within(x, (n - 1) as nat);
            y.union(self.eps_successors(y))
        }
    }

    /// The epsilon closure of `x`: every state reached from `x` by any number
    /// of epsilon edges, `x` included.
    pub open spec fn closure(&self, x: Set<usize>) -> Set<usize> {
        Set::new(|q: usize| exists|n: nat| #[trigger] self.eps_within(x, n).contains(q))
    }

    /// The states reached from a member of `x` by one edge labelled `c`.
    pub open spec fn move_on(&self, x: Set<usize>, c: char) -> Set<usize> {
        Set::new(
            |q: usize|
                exists|k: int|
                    0 <= k < self.transitions@.len() && x.contains(#[trigger] self.transitions@[k].0)
                        && self.transitions@[k].1 == Some(c) && self.transitions@[k].2 == q,
        )
    }

    /// The labels of the accept states among `s`, in the order of `s`.
    pub open spec fn labels_in(&self, s: Seq<usize>) -> Seq<Seq<char>>
        decreases s.len(),
    {
        if s.len() == 0 {
            Seq::empty()
        } else {
            let rest = self.labels_in(s.drop_last());
            if self.accept@.contains_key(s.last()) {
                rest.push(self.accept@[s.last()]@)
            } else {
                rest
            }
        }
    }

    /// Some member of `x` is an accept state.
    pub open spec fn has_accept(&self, x: Set<usize>) -> bool {
        exists|q: usize| x.contains(q) && #[trigger] self.accept@.contains_key(q)
    }

    /// The states reached from `x` by one edge labelled `c` and then any
    /// number of epsilon edges.
    pub open spec fn step_set(&self, x: Set<usize>, c: char) -> Set<usize> {
        self.closure(self.move_on(x, c))
    }

    /// The states reachable from the start state by reading `w`, with
    /// epsilon edges taken before, between and after its symbols.
    pub open spec fn reach(&self, w: Seq<char>) -> Set<usize>
        decreases w.len(),
    {
        if w.len() == 0 {
            self.closure(set![self.start])
        } else {
            self.step_set(self.reach(w.drop_last()), w.last())
        }
    }

    /// Some path from the start state that reads exactly `w` ends in an accept state.
    pub open spec fn accepts(&self, w: Seq<char>) -> bool {
        self.has_accept(self.reach(w))
    }

    /// The targets of all edges.
    pub open spec fn targets(&self) -> Set<usize> {
        Seq::new(self.transitions@.len(), |k: int| self.transitions@[k].2).to_set()
    }

    /// An NFA with start state `start`, no edges and no accept states.
    pub fn new(start: usize) -> (r: NFA)
        ensures
            r.start == start,
            r.transitions@ == Seq::<(usize, Option<char>, usize)>::empty(),
            r.accept@ == Map::<usize, String>::empty(),
    {
        NFA { transitions: Vec::new(), start, accept: HashMap::new() }
    }

    /// Adds the edge `from --symbol--> to`; `None` makes it an epsilon edge.
    pub fn add_transition(&mut self, from: usize, symbol: Option<char>, to: usize)
        ensures
            final(self).start == old(self).start,
            final(self).accept == old(self).accept,
            final(self).transitions@ == old(self).transitions@.push((from, symbol, to)),
    {
        self.transitions.push((from, symbol, to));
    }

    /// Makes `s` an accept state with label `label`.
    pub fn add_accept(&mut self, s: usize, label: String)
        ensures
            final(self).start == old(self).start,
            final(self).transitions == old(self).transitions,
            final(self).accept@ == old(self).accept@.insert(s, label),
    {
        self.accept.insert(s, label);
    }

    /// A state one epsilon edge away from a member of the closure of `x` is
    /// in that closure too.
    proof fn lemma_successor_in_closure(&self, x: Set<usize>, p: usize, k: int)
        requires
            self.closure(x).contains(p),
            0 <= k < self.transitions@.len(),
            self.transitions@[k].0 == p,
            self.transitions@[k].1 is None,
        ensures
            self.closure(x).contains(self.transitions@[k].2),
    {
        let n = choose|n: nat| #[trigger] self.eps_within(x, n).contains(p);
        let y = self.eps_within(x, n);
        assert(self.eps_successors(y).contains(self.transitions@[k].2));
        assert(self.eps_within(x, n + 1).contains(self.transitions@[k].2));
    }

    /// A superset of `x` closed under epsilon edges holds the closure of `x`.
    proof fn lemma_closed_holds_closure(&self, x: Set<usize>, v: Set<usize>, n: nat)
        requires
            x.subset_of(v),
            forall|k: int|
                0 <= k < self.transitions@.len() && v.contains(#[trigger] self.transitions@[k].0)
                    && self.transitions@[k].1 is None ==> v.contains(self.transitions@[k].2),
        ensures
            self.eps_within(x, n).subset_of(v),
        decreases n,
    {
        if n > 0 {
            self.lemma_closed_holds_closure(x, v, (n - 1) as nat);
        }
    }

    /// Closure is monotone: every set lies within its own epsilon closure.
    pub proof fn lemma_closure_extends(&self, x: Set<usize>)
        ensures
            x.subset_of(self.closure(x)),
    {
        assert forall|q: usize| x.contains(q) implies self.closure(x).contains(q) by {
            assert(self.eps_within(x, 0).contains(q));
        }
    }

    /// Closure is idempotent: closing an epsilon closure again adds nothing.
    pub proof fn lemma_closure_idempotent(&self, x: Set<usize>)
        ensures
            self.closure(self.closure(x)) == self.closure(x),
    {
        let c = self.closure(x);
        self.lemma_closure_extends(c);
        assert forall|k: int|
            0 <= k < self.transitions@.len() && c.contains(#[trigger] self.transitions@[k].0)
                && self.transitions@[k].1 is None implies c.contains(self.transitions@[k].2) by {
            self.lemma_successor_in_closure(x, self.transitions@[k].0, k);
        }
        assert forall|q: usize| self.closure(c).contains(q) implies c.contains(q) by {
            let n = choose|n: nat| #[trigger] self.eps_within(c, n).contains(q);
            self.lemma_closed_holds_closure(c, c, n);
        }
        assert(self.closure(c) =~= c);
    }

    /// The closure of `x` lies within `x` and the edge targets.
    pub proof fn lemma_closure_within(&self, x: Set<usize>)
        ensures
            self.closure(x).subset_of(x + self.targets()),
    {
        let u = x + self.targets();
        assert forall|k: int|
            0 <= k < self.transitions@.len() && u.contains(#[trigger] self.transitions@[k].0)
                && self.transitions@[k].1 is None implies u.contains(self.transitions@[k].2) by {
            assert(Seq::new(self.transitions@.len(), |k: int| self.transitions@[k].2)[k] == self.transitions@[k].2);
        }
        assert forall|q: usize| self.closure(x).contains(q) implies u.contains(q) by {
            let n = choose|n: nat| #[trigger] self.eps_within(x, n).contains(q);
            self.lemma_closed_holds_closure(x, u, n);
        }
    }

    /// The targets of the edges labelled `c` lie among the edge targets.
    pub proof fn lemma_move_within(&self, x: Set<usize>, c: char)
        ensures
            self.move_on(x, c).subset_of(self.targets()),
    {
        assert forall|q: usize| self.move_on(x, c).contains(q) implies self.targets().contains(q) by {
            let k = choose|k: int|
                0 <= k < self.transitions@.len() && x.contains(#[trigger] self.transitions@[k].0)
                    && self.transitions@[k].1 == Some(c) && self.transitions@[k].2 == q;
            assert(Seq::new(self.transitions@.len(), |k: int| self.transitions@[k].2)[k] == q);
        }
    }

    /// The closure of the empty set is empty.
    pub proof fn lemma_closure_empty(&self)
        ensures
            self.closure(Set::empty()) == Set::<usize>::empty(),
    {
        let e = Set::<usize>::empty();
        assert forall|q: usize| self.closure(e).contains(q) implies false by {
            let n = choose|n: nat| #[trigger] self.eps_within(e, n).contains(q);
            self.lemma_closed_holds_closure(e, e, n);
        }
        assert(self.closure(e) =~= e);
    }

    proof fn lemma_labels_nonempty(&self, s: Seq<usize>)
        ensures
            self.labels_in(s).len() > 0 <==> self.has_accept(s.to_set()),
        decreases s.len(),
    {
        if s.len() > 0 {
            self.lemma_labels_nonempty(s.drop_last());
            if self.has_accept(s.drop_last().to_set()) {
                let q = choose|q: usize| s.drop_last().to_set().contains(q) && #[trigger] self.accept@.contains_key(q);
                let m = s.drop_last().index_of(q);
                assert(s[m] == q);
                assert(s.to_set().contains(q));
            }
            if self.has_accept(s.to_set()) && !self.accept@.contains_key(s.last()) {
                let q = choose|q: usize| s.to_set().contains(q) && #[trigger] self.accept@.contains_key(q);
                let m = s.index_of(q);
                assert(s.drop_last()[m] == q);
                assert(s.drop_last().to_set().contains(q));
            }
            if self.accept@.contains_key(s.last()) {
                assert(s.to_set().contains(s[s.len() - 1]));
            }
        }
    }

    /// The labels of the accept states among `states`, joined in the order of
    /// `states`; `None` where none of them is an accept state.
    pub fn join_labels(&self, states: &Vec<usize>) -> (r: Option<String>)
        ensures
            r is Some <==> self.has_accept(states@.to_set()),
            r matches Some(l) ==> l@ == join_labels_spec(self.labels_in(states@)),
    {
        let mut out = String::new();
        let mut any: bool = false;
        let mut k: usize = 0;
        while k < states.len()
            invariant
                k <= states@.len(),
                any == (self.labels_in(states@.subrange(0, k as int)).len() > 0),
                out@ == join_labels_spec(self.labels_in(states@.subrange(0, k as int))),
            decreases states@.len() - k,
        {
            assert(states@.subrange(0, k + 1).drop_last() =~= states@.subrange(0, k as int));
            match self.accept.get(&states[k]) {
                Some(l) => {
                    let ghost ls = self.labels_in(states@.subrange(0, k as int));
                    assert(ls.push(l@).drop_last() =~= ls);
                    if any {
                        out.append(", ");
                        proof {
                            reveal_strlit(", ");
                        }
                        assert(", "@ =~= seq![',', ' ']);
                    } else {
                        assert(out@ =~= Seq::<char>::empty());
                    }
                    out.append(l.as_str());
                    assert(out@ =~= join_labels_spec(ls.push(l@)));
                    any = true;
                },
                None => {},
            }
            k += 1;
        }
        assert(states@.subrange(0, states@.len() as int) =~= states@);
        proof {
            self.lemma_labels_nonempty(states@);
        }
        if any {
            Some(out)
        } else {
            None
        }
    }

    /// The epsilon closure of the states in `states`, as an ascending state set.
    pub fn epsilon_closure(&self, states: &Vec<usize>) -> (r: Vec<usize>)
        ensures
            is_state_set(r@),
            r@.to_set() == self.closure(states@.to_set()),
    {
        let ghost x = states@.to_set();
        let ghost bound = x + self.targets();
        let mut order: Vec<usize> = Vec::new();
        let mut result: Vec<usize> = Vec::new();
        let mut k: usize = 0;
        proof {
            self.lemma_closure_extends(x);
        }
        while k < states.len()
            invariant
                k <= states@.len(),
                x == states@.to_set(),
                is_state_set(result@),
                order@.len() == result@.len(),
                forall|y: usize| #[trigger] result@.contains(y) <==> order@.contains(y),
                forall|y: usize| #[trigger] result@.contains(y) <==> exists|m: int| 0 <= m < k && states@[m] == y,
            decreases states@.len() - k,
        {
            let s = states[k];
            if !set_contains(&result, s) {
                proof {
                    lemma_push_members(order@, s);
                }
                order.push(s);
                set_insert(&mut result, s);
            }
            k += 1;
        }
        let mut done: usize = 0;
        let ghost edges = self.transitions@;
        proof {
            vstd::seq_lib::seq_to_set_is_finite(states@);
            vstd::seq_lib::seq_to_set_is_finite(Seq::new(edges.len(), |k: int| edges[k].2));
        }
        while done < order.len()
            invariant
                done <= order@.len(),
                edges == self.transitions@,
                x == states@.to_set(),
                bound == x + self.targets(),
                bound.finite(),
                is_state_set(result@),
                order@.len() == result@.len(),
                forall|y: usize| #[trigger] result@.contains(y) <==> order@.contains(y),
                x.subset_of(result@.to_set()),
                result@.to_set().subset_of(bound),
                result@.to_set().subset_of(self.closure(x)),
                forall|m: int, e: int|
                    #![trigger order@[m], edges[e]]
                    0 <= m < done && 0 <= e < edges.len() && edges[e].0 == order@[m]
                        && edges[e].1 is None ==> result@.contains(edges[e].2),
            decreases bound.len() - done,
        {
            let p = order[done];
            assert(result@.contains(p));
            let mut e: usize = 0;
            while e < self.transitions.len()
                invariant
                    done < order@.len(),
                    p == order@[done as int],
                    e <= edges.len(),
                    edges == self.transitions@,
                    x == states@.to_set(),
                    bound == x + self.targets(),
                    is_state_set(result@),
                    order@.len() == result@.len(),
                    forall|y: usize| #[trigger] result@.contains(y) <==> order@.contains(y),
                    x.subset_of(result@.to_set()),
                    result@.to_set().subset_of(bound),
                    result@.to_set().subset_of(self.closure(x)),
                    forall|m: int, e2: int|
                        #![trigger order@[m], edges[e2]]
                        0 <= m < done && 0 <= e2 < edges.len() && edges[e2].0 == order@[m]
                            && edges[e2].1 is None ==> result@.contains(edges[e2].2),
                    forall|e2: int|
                        #![trigger edges[e2]]
                        0 <= e2 < e && edges[e2].0 == p && edges[e2].1 is None
                            ==> result@.contains(edges[e2].2),
                decreases edges.len() - e,
            {
                let (from, symbol, to) = self.transitions[e];
                if from == p && symbol.is_none() && !set_contains(&result, to) {
                    proof {
                        self.lemma_successor_in_closure(x, p, e as int);
                        assert(Seq::new(edges.len(), |k: int| edges[k].2)[e as int] == to);
                        lemma_push_members(order@, to);
                    }
                    order.push(to);
                    set_insert(&mut result, to);
                    assert(order@[done as int] == p);
                }
                e += 1;
            }
            proof {
                result@.unique_seq_to_set();
                vstd::set_lib::lemma_len_subset(result@.to_set(), bound);
                assert(result@.no_duplicates()) by {
                    assert forall|i: int, j: int| 0 <= i < result@.len() && 0 <= j < result@.len() && i != j
                        implies result@[i] != result@[j] by {
                        if i < j {
                            assert(result@[i] < result@[j]);
                        } else {
                            assert(result@[j] < result@[i]);
                        }
                    }
                }
            }
            done += 1;
        }
        proof {
            let v = result@.to_set();
            assert forall|e: int|
                0 <= e < edges.len() && v.contains(#[trigger] edges[e].0) && edges[e].1 is None
                implies v.contains(edges[e].2) by {
                assert(order@.contains(edges[e].0));
                let m = order@.index_of(edges[e].0);
                assert(edges[e].0 == order@[m]);
            }
            assert forall|q: usize| self.closure(x).contains(q) implies v.contains(q) by {
                let n = choose|n: nat| #[trigger] self.eps_within(x, n).contains(q);
                self.lemma_closed_holds_closure(x, v, n);
            }
            assert(v =~= self.closure(x));
        }
        result
    }

    /// The states reached from a member of `states` by one edge labelled
    /// `symbol`, as an ascending state set.
    pub fn move_set(&self, states: &Vec<usize>, symbol: char) -> (r: Vec<usize>)
        ensures
            is_state_set(r@),
            r@.to_set() == self.move_on(states@.to_set(), symbol),
    {
        let ghost edges = self.transitions@;
        let mut result: Vec<usize> = Vec::new();
        let mut e: usize = 0;
        while e < self.transitions.len()
            invariant
                e <= edges.len(),
                edges == self.transitions@,
                is_state_set(result@),
                forall|q: usize|
                    #[trigger] result@.contains(q) <==> exists|k: int|
                        0 <= k < e && states@.contains(#[trigger] edges[k].0) && edges[k].1 == Some(symbol)
                            && edges[k].2 == q,
            decreases edges.len() - e,
        {
            let (from, label, to) = self.transitions[e];
            let hit = match label {
                Some(c) => c == symbol,
                None => false,
            };
            if hit && set_contains(states, from) {
                set_insert(&mut result, to);
            }
            e += 1;
        }
        assert(result@.to_set() =~= self.move_on(states@.to_set(), symbol));
        result
    }
}

} // verus!
