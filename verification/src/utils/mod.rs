use vstd::prelude::*;

pub mod random;
pub mod assoc;
pub mod graph;
pub mod count;
pub mod text;
pub mod show;

verus! {

/// A sequence without repeated elements whose elements all lie in a finite set
/// is no longer than that set is large.
pub proof fn lemma_distinct_within_len<A>(s: Seq<A>, u: Set<A>)
    requires
        s.no_duplicates(),
        u.finite(),
        forall|i: int| 0 <= i < s.len() ==> u.contains(#[trigger] s[i]),
    ensures
        s.len() <= u.len(),
{
    s.unique_seq_to_set();
    assert(s.to_set().subset_of(u));
    vstd::set_lib::lemma_len_subset(s.to_set(), u);
}

/// A sequence without repeated elements whose elements all occur in `t`
/// is no longer than `t`.
pub proof fn lemma_distinct_within_seq_len<A>(s: Seq<A>, t: Seq<A>)
    requires
        s.no_duplicates(),
        forall|i: int| 0 <= i < s.len() ==> t.contains(#[trigger] s[i]),
    ensures
        s.len() <= t.len(),
{
    t.lemma_cardinality_of_set();
    assert forall|i: int| 0 <= i < s.len() implies t.to_set().contains(#[trigger] s[i]) by {
        assert(t.contains(s[i]));
    }
    lemma_distinct_within_len(s, t.to_set());
}


/// `s` is closed under `edge`: every successor of a member is a member.
pub open spec fn closed_under<T>(edge: spec_fn(T, T) -> bool, s: Set<T>) -> bool {
    forall|u: T, v: T| s.contains(u) && #[trigger] edge(u, v) ==> s.contains(v)
}

/// `v` can be reached from `start` along `edge`: it lies in every set that holds
/// `start` and is closed under `edge`.
pub open spec fn reachable<T>(edge: spec_fn(T, T) -> bool, start: T, v: T) -> bool {
    forall|s: Set<T>| s.contains(start) && closed_under(edge, s) ==> #[trigger] s.contains(v)
}

pub proof fn lemma_reach_start<T>(edge: spec_fn(T, T) -> bool, start: T)
    ensures
        reachable(edge, start, start),
{
}

pub proof fn lemma_reach_step<T>(edge: spec_fn(T, T) -> bool, start: T, u: T, v: T)
    requires
        reachable(edge, start, u),
        edge(u, v),
    ensures
        reachable(edge, start, v),
{
    assert forall|s: Set<T>| s.contains(start) && closed_under(edge, s) implies #[trigger] s.contains(v) by {
        assert(s.contains(u));
    }
}

pub proof fn lemma_reach_in_closed<T>(edge: spec_fn(T, T) -> bool, start: T, v: T, s: Set<T>)
    requires
        reachable(edge, start, v),
        s.contains(start),
        closed_under(edge, s),
    ensures
        s.contains(v),
{
}


pub proof fn lemma_push_no_dup<A>(s: Seq<A>, x: A)
    requires
        s.no_duplicates(),
        !s.contains(x),
    ensures
        s.push(x).no_duplicates(),
{
    assert forall|a: int, b: int| 0 <= a < s.push(x).len() && 0 <= b < s.push(x).len() && a != b implies s.push(x)[a] != s.push(x)[b] by {
        if a == s.len() {
            assert(s[b] == s.push(x)[b]);
        } else if b == s.len() {
            assert(s[a] == s.push(x)[a]);
        }
    }
}


/// The least set that holds `init` and is closed under `edge`.
pub open spec fn least_closed<T>(init: Set<T>, edge: spec_fn(T, T) -> bool) -> Set<T> {
    Set::new(|v: T| forall|s: Set<T>| init.subset_of(s) && closed_under(edge, s) ==> #[trigger] s.contains(v))
}

pub proof fn lemma_least_closed_init<T>(init: Set<T>, edge: spec_fn(T, T) -> bool, v: T)
    requires
        init.contains(v),
    ensures
        least_closed(init, edge).contains(v),
{
}

pub proof fn lemma_least_closed_step<T>(init: Set<T>, edge: spec_fn(T, T) -> bool, u: T, v: T)
    requires
        least_closed(init, edge).contains(u),
        edge(u, v),
    ensures
        least_closed(init, edge).contains(v),
{
    assert forall|s: Set<T>| init.subset_of(s) && closed_under(edge, s) implies #[trigger] s.contains(v) by {
        assert(s.contains(u));
    }
}

pub proof fn lemma_least_closed_min<T>(init: Set<T>, edge: spec_fn(T, T) -> bool, s: Set<T>)
    requires
        init.subset_of(s),
        closed_under(edge, s),
    ensures
        least_closed(init, edge).subset_of(s),
{
}

/// `s` is the least closed set over `init`: it holds `init`, is closed, and lies in the least one.
pub proof fn lemma_least_closed_eq<T>(init: Set<T>, edge: spec_fn(T, T) -> bool, s: Set<T>)
    requires
        init.subset_of(s),
        closed_under(edge, s),
        s.subset_of(least_closed(init, edge)),
    ensures
        s == least_closed(init, edge),
{
    lemma_least_closed_min(init, edge, s);
    assert(s =~= least_closed(init, edge));
}

/// The subsets of `u`.
pub open spec fn subsets_of<A>(u: Set<A>) -> Set<Set<A>> {
    Set::new(|s: Set<A>| s.subset_of(u))
}

pub proof fn lemma_subsets_finite<A>(u: Set<A>)
    requires
        u.finite(),
    ensures
        subsets_of(u).finite(),
    decreases u.len(),
{
    if u.len() == 0 {
        assert(u =~= Set::<A>::empty());
        assert(subsets_of(u) =~= set![Set::<A>::empty()]) by {
            assert forall|s: Set<A>| subsets_of(u).contains(s) implies s == Set::<A>::empty() by {
                assert(s =~= Set::<A>::empty());
            }
        }
    } else {
        let a = u.choose();
        let u2 = u.remove(a);
        lemma_subsets_finite(u2);
        let f = |s: Set<A>| s.insert(a);
        subsets_of(u2).lemma_map_finite(f);
        let w = subsets_of(u2).union(subsets_of(u2).map(f));
        assert(subsets_of(u) =~= w) by {
            assert forall|s: Set<A>| subsets_of(u).contains(s) implies w.contains(s) by {
                if s.contains(a) {
                    let s2 = s.remove(a);
                    assert(s2.insert(a) =~= s);
                    assert(subsets_of(u2).contains(s2));
                    assert(subsets_of(u2).map(f).contains(f(s2)));
                } else {
                    assert(s.subset_of(u2));
                }
            }
            assert forall|s: Set<A>| w.contains(s) implies subsets_of(u).contains(s) by {
                if !subsets_of(u2).contains(s) {
                    let s2 = choose|s2: Set<A>| subsets_of(u2).contains(s2) && f(s2) == s;
                    assert(s.subset_of(u));
                }
            }
        }
    }
}

} // verus!
