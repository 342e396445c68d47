//! Stable ordering of records by an unsigned key, as insertion sort does it:
//! records with equal keys keep their order.

use vstd::prelude::*;

verus! {

/// A record with an unsigned key to order by.
pub trait SortKey {
    spec fn sort_key(&self) -> int;

    fn key(&self) -> (k: u128)
        ensures
            k == self.sort_key(),
    ;
}

/// Index of the first record of `s` at or after `i` whose key exceeds `k`,
/// or the length.
pub open spec fn first_above<T: SortKey>(s: Seq<T>, k: int, i: int) -> int
    decreases s.len() - i,
{
    if i < 0 || i >= s.len() {
        s.len() as int
    } else if s[i].sort_key() > k {
        i
    } else {
        first_above(s, k, i + 1)
    }
}

/// `x` placed after every leading record of `s` whose key does not exceed its own.
pub open spec fn insert_stable<T: SortKey>(s: Seq<T>, x: T) -> Seq<T> {
    s.insert(first_above(s, x.sort_key(), 0), x)
}

/// The records of `s` ordered by key, equal keys in their order in `s`.
pub open spec fn stable_sorted<T: SortKey>(s: Seq<T>) -> Seq<T>
    decreases s.len(),
{
    if s.len() == 0 {
        s
    } else {
        insert_stable(stable_sorted(s.drop_last()), s.last())
    }
}

/// Whether the keys of `s` never decrease.
pub open spec fn keys_ascending<T: SortKey>(s: Seq<T>) -> bool {
    forall|i: int, j: int| 0 <= i <= j < s.len() ==> s[i].sort_key() <= s[j].sort_key()
}

proof fn lemma_first_above<T: SortKey>(s: Seq<T>, k: int, i: int)
    requires
        0 <= i <= s.len(),
    ensures
        i <= first_above(s, k, i) <= s.len(),
        forall|j: int| i <= j < first_above(s, k, i) ==> s[j].sort_key() <= k,
        first_above(s, k, i) < s.len() ==> s[first_above(s, k, i)].sort_key() > k,
    decreases s.len() - i,
{
    if i < s.len() && s[i].sort_key() <= k {
        lemma_first_above(s, k, i + 1);
    }
}

proof fn lemma_insert_stable<T: SortKey>(s: Seq<T>, x: T)
    requires
        keys_ascending(s),
    ensures
        keys_ascending(insert_stable(s, x)),
        insert_stable(s, x).len() == s.len() + 1,
        forall|y: T| #[trigger] insert_stable(s, x).contains(y) ==> y == x || s.contains(y),
        insert_stable(s, x).to_multiset() =~= s.to_multiset().insert(x),
{
    let p = first_above(s, x.sort_key(), 0);
    lemma_first_above(s, x.sort_key(), 0);
    let r = insert_stable(s, x);
    s.insert_ensures(p, x);
    assert forall|i: int, j: int| 0 <= i <= j < r.len() implies r[i].sort_key()
        <= r[j].sort_key() by {
        if j < p {
        } else if j == p {
            if i < p {
                assert(r[i] == s[i]);
            }
        } else {
            assert(r[j] == s[j - 1]);
            if i < p {
                assert(r[i] == s[i]);
            } else if i == p {
                assert(s[p].sort_key() > x.sort_key());
            } else {
                assert(r[i] == s[i - 1]);
            }
        }
    }
    assert forall|y: T| #[trigger] r.contains(y) implies y == x || s.contains(y) by {
        let i = choose|i: int| 0 <= i < r.len() && r[i] == y;
        if i < p {
            assert(s[i] == y);
        } else if i > p {
            assert(s[i - 1] == y);
        }
    }
    let a = s.subrange(0, p);
    let b = s.subrange(p, s.len() as int);
    assert(s =~= a + b);
    vstd::seq_lib::lemma_multiset_commutative(a.push(x), b);
    vstd::seq_lib::lemma_multiset_commutative(a, b);
    a.to_multiset_ensures();
}

/// What the stable order keeps of its input: every record, in ascending key order.
pub proof fn lemma_stable_sorted<T: SortKey>(s: Seq<T>)
    ensures
        keys_ascending(stable_sorted(s)),
        stable_sorted(s).len() == s.len(),
        forall|y: T| #[trigger] stable_sorted(s).contains(y) ==> s.contains(y),
        stable_sorted(s).to_multiset() =~= s.to_multiset(),
    decreases s.len(),
{
    if s.len() > 0 {
        lemma_stable_sorted(s.drop_last());
        lemma_insert_stable(stable_sorted(s.drop_last()), s.last());
        assert(s =~= s.drop_last().push(s.last()));
        s.drop_last().to_multiset_ensures();
        assert forall|y: T| #[trigger] stable_sorted(s).contains(y) implies s.contains(y) by {
            if y != s.last() {
                assert(stable_sorted(s.drop_last()).contains(y));
                let i = choose|i: int| 0 <= i < s.drop_last().len() && s.drop_last()[i] == y;
                assert(s[i] == y);
            } else {
                assert(s[s.len() - 1] == y);
            }
        }
    }
}

fn first_above_exec<T: SortKey>(s: &Vec<T>, k: u128) -> (r: usize)
    ensures
        r == first_above(s@, k as int, 0),
        r <= s.len(),
{
    proof {
        lemma_first_above(s@, k as int, 0);
    }
    let mut i: usize = 0;
    while i < s.len()
        invariant
            i <= s.len(),
            first_above(s@, k as int, 0) == first_above(s@, k as int, i as int),
        decreases s.len() - i,
    {
        if s[i].key() > k {
            return i;
        }
        i = i + 1;
    }
    i
}

/// Orders `v` by key; records with equal keys keep their order.
pub fn stable_sort<T: SortKey>(v: Vec<T>) -> (r: Vec<T>)
    ensures
        r@ == stable_sorted(v@),
{
    let ghost v0 = v@;
    assert(v0.len() == v.len());
    let mut rest = v;
    let mut out: Vec<T> = Vec::new();
    let mut i: usize = 0;
    while rest.len() > 0
        invariant
            i <= v0.len() <= usize::MAX,
            rest@ == v0.skip(i as int),
            out@ == stable_sorted(v0.take(i as int)),
        decreases rest.len(),
    {
        assert(i < v0.len());
        let x = rest.remove(0);
        assert(x == v0[i as int]);
        let p = first_above_exec(&out, x.key());
        out.insert(p, x);
        proof {
            assert(v0.take(i as int + 1).drop_last() =~= v0.take(i as int));
            assert(v0.take(i as int + 1).last() == x);
        }
        i = i + 1;
        assert(rest@ =~= v0.skip(i as int));
    }
    assert(v0.take(i as int) =~= v0);
    out
}

} // verus!
