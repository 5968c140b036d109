//! Sets of automaton states, held canonically as strictly ascending vectors.
use vstd::prelude::*;
use vstd::arithmetic::power2::{pow2, lemma_pow2_unfold};
use vstd::set_lib::{lemma_map_size, lemma_set_disjoint_lens, lemma_len_subset};

verus! {

/// `s` is strictly ascending, so it lists each member of a set once, in order.
pub open spec fn is_state_set(s: Seq<usize>) -> bool {
    forall|i: int, j: int| 0 <= i < j < s.len() ==> s[i] < s[j]
}

/// Whether `x` is a member of the state set `v`.
pub fn set_contains(v: &Vec<usize>, x: usize) -> (r: bool)
    ensures
        r == v@.contains(x),
{
    let mut k: usize = 0;
    while k < v.len()
        invariant
            k <= v@.len(),
            forall|m: int| 0 <= m < k ==> v@[m] != x,
        decreases v@.len() - k,
    {
        if v[k] == x {
            return true;
        }
        k += 1;
    }
    false
}

/// Adds `x` to the state set `v`, keeping it ascending; the length grows by
/// one exactly when `x` was not yet a member.
pub fn set_insert(v: &mut Vec<usize>, x: usize)
    requires
        is_state_set(old(v)@),
    ensures
        is_state_set(final(v)@),
        forall|y: usize| #[trigger] final(v)@.contains(y) <==> (old(v)@.contains(y) || y == x),
        final(v)@.len() == if old(v)@.contains(x) {
            old(v)@.len()
        } else {
            old(v)@.len() + 1
        },
{
    let mut p: usize = 0;
    while p < v.len() && v[p] < x
        invariant
            p <= v@.len(),
            is_state_set(v@),
            forall|m: int| 0 <= m < p ==> v@[m] < x,
        decreases v@.len() - p,
    {
        p += 1;
    }
    if p < v.len() && v[p] == x {
        assert(v@.contains(x));
        return;
    }
    let ghost before = v@;
    assert(!before.contains(x)) by {
        if before.contains(x) {
            let m = before.index_of(x);
            if m >= p {
                assert(before[p as int] > x);
            }
        }
    }
    v.insert(p, x);
    assert(v@ =~= before.subrange(0, p as int).push(x) + before.subrange(p as int, before.len() as int));
    assert forall|y: usize| #[trigger] v@.contains(y) <==> (before.contains(y) || y == x) by {
        if y == x {
            assert(v@[p as int] == x);
        }
        if before.contains(y) {
            let m = before.index_of(y);
            if m < p {
                assert(v@[m] == y);
            } else {
                assert(v@[m + 1] == y);
            }
        }
        if v@.contains(y) {
            let m = v@.index_of(y);
            if m < p {
                assert(before[m] == y);
            } else if m > p {
                assert(before[m - 1] == y);
            }
        }
    }
}

/// The members of `s.push(x)` are those of `s` and `x`.
pub proof fn lemma_push_members(s: Seq<usize>, x: usize)
    ensures
        forall|y: usize| #[trigger] s.push(x).contains(y) <==> (s.contains(y) || y == x),
{
    assert forall|y: usize| #[trigger] s.push(x).contains(y) <==> (s.contains(y) || y == x) by {
        if y == x {
            assert(s.push(x)[s.len() as int] == x);
        }
        if s.contains(y) {
            let m = s.index_of(y);
            assert(s.push(x)[m] == y);
        }
        if s.push(x).contains(y) {
            let m = s.push(x).index_of(y);
            if m < s.len() {
                assert(s[m] == y);
            }
        }
    }
}

/// Two state sets with the same members are the same vector.
pub proof fn lemma_state_set_unique(s1: Seq<usize>, s2: Seq<usize>)
    requires
        is_state_set(s1),
        is_state_set(s2),
        forall|x: usize| s1.contains(x) <==> s2.contains(x),
    ensures
        s1 == s2,
    decreases s1.len(),
{
    if s1.len() == 0 {
        if s2.len() > 0 {
            assert(s2.contains(s2[0]));
        }
        assert(s1 =~= s2);
    } else {
        assert(s1.contains(s1[0]));
        assert(s2.len() > 0);
        assert(s2.contains(s2[0]));
        let a = s1.index_of(s2[0]);
        let b = s2.index_of(s1[0]);
        assert(s1[0] <= s1[a]);
        assert(s2[0] <= s2[b]);
        assert(s1[0] == s2[0]);
        let t1 = s1.drop_first();
        let t2 = s2.drop_first();
        assert forall|x: usize| t1.contains(x) <==> t2.contains(x) by {
            if t1.contains(x) {
                let m = t1.index_of(x);
                assert(s1[m + 1] == x);
                assert(s2.contains(x));
                let n = s2.index_of(x);
                if n == 0 {
                    assert(s1[0] < s1[m + 1]);
                }
                assert(t2[n - 1] == x);
            }
            if t2.contains(x) {
                let m = t2.index_of(x);
                assert(s2[m + 1] == x);
                assert(s1.contains(x));
                let n = s1.index_of(x);
                if n == 0 {
                    assert(s2[0] < s2[m + 1]);
                }
                assert(t1[n - 1] == x);
            }
        }
        lemma_state_set_unique(t1, t2);
        assert(t1 == t2);
        assert(s1 =~= seq![s1[0]] + t1);
        assert(s2 =~= seq![s2[0]] + t2);
    }
}

/// A finite family of subsets of a finite set `u` has at most 2^|u| members.
pub proof fn lemma_family_bound(f: Set<Set<usize>>, u: Set<usize>)
    requires
        u.finite(),
        f.finite(),
        forall|s: Set<usize>| #[trigger] f.contains(s) ==> s.subset_of(u),
    ensures
        f.len() <= pow2(u.len()),
    decreases u.len(),
{
    if u.len() == 0 {
        let only = set![Set::<usize>::empty()];
        assert forall|s: Set<usize>| #[trigger] f.contains(s) implies only.contains(s) by {
            assert(s =~= Set::<usize>::empty());
        }
        lemma_len_subset(f, only);
        assert(pow2(0) == 1) by {
            vstd::arithmetic::power2::lemma2_to64();
        }
    } else {
        let x = u.choose();
        let u2 = u.remove(x);
        let without = f.filter(|s: Set<usize>| !s.contains(x));
        let with = f.filter(|s: Set<usize>| s.contains(x));
        let shrink = |s: Set<usize>| s.remove(x);
        let shrunk = with.map(shrink);
        assert forall|a: Set<usize>, b: Set<usize>|
            with.contains(a) && with.contains(b) && #[trigger] shrink(a) == #[trigger] shrink(b)
            implies a == b by {
            assert(a =~= shrink(a).insert(x));
            assert(b =~= shrink(b).insert(x));
        }
        lemma_map_size(with, shrunk, shrink);
        assert forall|s: Set<usize>| #[trigger] shrunk.contains(s) implies s.subset_of(u2) by {
            let t = choose|t: Set<usize>| with.contains(t) && shrink(t) == s;
            assert(t.subset_of(u));
        }
        lemma_family_bound(shrunk, u2);
        lemma_family_bound(without, u2);
        lemma_set_disjoint_lens(without, with);
        assert(without + with =~= f);
        lemma_pow2_unfold(u.len());
    }
}

} // verus!
