use vstd::prelude::*;
use vstd::multiset::Multiset;

verus! {

/// A value ordered by an unsigned integer key.
pub trait Keyed {
    spec fn key_spec(&self) -> int;

    fn key(&self) -> (r: u64)
        ensures
            r as int == self.key_spec(),
    ;
}

/// Keys ascend along the sequence.
pub open spec fn sorted_by_key<T: Keyed>(s: Seq<T>) -> bool {
    forall|i: int, j: int| 0 <= i <= j < s.len() ==> s[i].key_spec() <= s[j].key_spec()
}

/// Where a value of key `k` goes in `s`: after the last element whose key is
/// not greater than `k`.
pub open spec fn insert_pos<T: Keyed>(s: Seq<T>, k: int) -> int
    decreases s.len(),
{
    if s.len() == 0 {
        0
    } else if s.last().key_spec() > k {
        insert_pos(s.drop_last(), k)
    } else {
        s.len() as int
    }
}

/// Insert each element of `rest`, front first, into `done`.
pub open spec fn sort_into<T: Keyed>(done: Seq<T>, rest: Seq<T>) -> Seq<T>
    decreases rest.len(),
{
    if rest.len() == 0 {
        done
    } else {
        sort_into(done.insert(insert_pos(done, rest[0].key_spec()), rest[0]), rest.drop_first())
    }
}

/// The sequence sorted by key; elements with equal keys keep their order.
pub open spec fn stable_sorted<T: Keyed>(s: Seq<T>) -> Seq<T> {
    sort_into(Seq::empty(), s)
}

proof fn lemma_insert_pos<T: Keyed>(s: Seq<T>, k: int)
    requires
        sorted_by_key(s),
    ensures
        0 <= insert_pos(s, k) <= s.len(),
        forall|i: int| 0 <= i < insert_pos(s, k) ==> #[trigger] s[i].key_spec() <= k,
        forall|i: int| insert_pos(s, k) <= i < s.len() ==> #[trigger] s[i].key_spec() > k,
    decreases s.len(),
{
    if s.len() > 0 {
        let t = s.drop_last();
        assert(sorted_by_key(t));
        lemma_insert_pos(t, k);
        if s.last().key_spec() > k {
            assert forall|i: int| insert_pos(s, k) <= i < s.len() implies #[trigger] s[i].key_spec()
                > k by {
                if i < s.len() - 1 {
                    assert(s[i] == t[i]);
                }
            }
            assert forall|i: int| 0 <= i < insert_pos(s, k) implies #[trigger] s[i].key_spec() <= k by {
                assert(s[i] == t[i]);
            }
        }
    }
}

proof fn lemma_insert_sorted<T: Keyed>(s: Seq<T>, x: T)
    requires
        sorted_by_key(s),
    ensures
        sorted_by_key(s.insert(insert_pos(s, x.key_spec()), x)),
{
    lemma_insert_pos(s, x.key_spec());
    let p = insert_pos(s, x.key_spec());
    let r = s.insert(p, x);
    assert forall|i: int, j: int| 0 <= i <= j < r.len() implies r[i].key_spec() <= r[j].key_spec() by {
        if i < p && j < p {
        } else if i < p && j == p {
        } else if i < p {
            assert(r[j] == s[j - 1]);
        } else if i == p && j > p {
            assert(r[j] == s[j - 1]);
        } else if i > p {
            assert(r[i] == s[i - 1] && r[j] == s[j - 1]);
        }
    }
}

proof fn lemma_sort_into<T: Keyed>(done: Seq<T>, rest: Seq<T>)
    requires
        sorted_by_key(done),
    ensures
        sorted_by_key(sort_into(done, rest)),
        sort_into(done, rest).len() == done.len() + rest.len(),
    decreases rest.len(),
{
    if rest.len() > 0 {
        lemma_insert_sorted(done, rest[0]);
        lemma_insert_pos(done, rest[0].key_spec());
        lemma_sort_into(
            done.insert(insert_pos(done, rest[0].key_spec()), rest[0]),
            rest.drop_first(),
        );
    }
}

/// The stable sort is ordered by key and keeps the length.
pub proof fn lemma_stable_sorted<T: Keyed>(s: Seq<T>)
    ensures
        sorted_by_key(stable_sorted(s)),
        stable_sorted(s).len() == s.len(),
{
    lemma_sort_into(Seq::<T>::empty(), s);
}

proof fn lemma_sort_into_keeps<T: Keyed>(done: Seq<T>, rest: Seq<T>, p: spec_fn(T) -> bool)
    requires
        forall|i: int| 0 <= i < done.len() ==> p(#[trigger] done[i]),
        forall|i: int| 0 <= i < rest.len() ==> p(#[trigger] rest[i]),
    ensures
        forall|i: int| 0 <= i < sort_into(done, rest).len() ==> p(#[trigger] sort_into(done, rest)[i]),
    decreases rest.len(),
{
    if rest.len() > 0 {
        let k = insert_pos(done, rest[0].key_spec());
        lemma_insert_pos_bound(done, rest[0].key_spec());
        let d = done.insert(k, rest[0]);
        assert forall|i: int| 0 <= i < d.len() implies p(#[trigger] d[i]) by {
            if i < k {
                assert(d[i] == done[i]);
            } else if i > k {
                assert(d[i] == done[i - 1]);
            } else {
                assert(d[i] == rest[0]);
            }
        }
        assert forall|i: int| 0 <= i < rest.drop_first().len() implies p(#[trigger] rest.drop_first()[i]) by {
            assert(rest.drop_first()[i] == rest[i + 1]);
        }
        lemma_sort_into_keeps(d, rest.drop_first(), p);
        assert(sort_into(done, rest) == sort_into(d, rest.drop_first()));
    }
}

proof fn lemma_insert_pos_bound<T: Keyed>(s: Seq<T>, k: int)
    ensures
        0 <= insert_pos(s, k) <= s.len(),
    decreases s.len(),
{
    if s.len() > 0 {
        lemma_insert_pos_bound(s.drop_last(), k);
    }
}

/// Every element of the sorted sequence has a property that every element of
/// the input has.
pub proof fn lemma_stable_sorted_keeps<T: Keyed>(s: Seq<T>, p: spec_fn(T) -> bool)
    requires
        forall|i: int| 0 <= i < s.len() ==> p(#[trigger] s[i]),
    ensures
        forall|i: int| 0 <= i < stable_sorted(s).len() ==> p(#[trigger] stable_sorted(s)[i]),
{
    lemma_sort_into_keeps(Seq::<T>::empty(), s, p);
}

proof fn lemma_sort_into_multiset<T: Keyed>(done: Seq<T>, rest: Seq<T>)
    ensures
        sort_into(done, rest).to_multiset() == done.to_multiset().add(rest.to_multiset()),
    decreases rest.len(),
{
    broadcast use vstd::seq_lib::group_to_multiset_ensures, vstd::multiset::group_multiset_axioms;

    if rest.len() == 0 {
        assert(done.to_multiset().add(rest.to_multiset()) =~= done.to_multiset());
    } else {
        let k = insert_pos(done, rest[0].key_spec());
        lemma_insert_pos_bound(done, rest[0].key_spec());
        let d = done.insert(k, rest[0]);
        lemma_sort_into_multiset(d, rest.drop_first());
        vstd::seq_lib::to_multiset_insert(done, k, rest[0]);
        assert(rest =~= seq![rest[0]] + rest.drop_first());
        vstd::seq_lib::lemma_multiset_commutative(seq![rest[0]], rest.drop_first());
        assert(seq![rest[0]] =~= Seq::<T>::empty().push(rest[0]));
        vstd::seq_lib::to_multiset_build(Seq::<T>::empty(), rest[0]);
        assert(sort_into(done, rest).to_multiset() =~= done.to_multiset().add(rest.to_multiset()));
    }
}

/// The stable sort reorders its input without adding or losing an element.
pub proof fn lemma_stable_sorted_permutes<T: Keyed>(s: Seq<T>)
    ensures
        stable_sorted(s).to_multiset() == s.to_multiset(),
{
    broadcast use vstd::seq_lib::group_to_multiset_ensures, vstd::multiset::group_multiset_axioms;

    lemma_sort_into_multiset(Seq::<T>::empty(), s);
    assert(Seq::<T>::empty().to_multiset() =~= Multiset::<T>::empty());
    assert(Multiset::<T>::empty().add(s.to_multiset()) =~= s.to_multiset());
}

/// Sort by key, keeping the input order among equal keys.
pub fn stable_sort<T: Keyed + Copy>(v: &Vec<T>) -> (r: Vec<T>)
    ensures
        r@ == stable_sorted(v@),
        sorted_by_key(r@),
        r@.len() == v@.len(),
{
    let mut out: Vec<T> = Vec::new();
    let mut i: usize = 0;
    assert(v@.subrange(0, v@.len() as int) =~= v@);
    while i < v.len()
        invariant
            0 <= i <= v@.len(),
            sort_into(out@, v@.subrange(i as int, v@.len() as int)) == stable_sorted(v@),
            sorted_by_key(out@),
            out@.len() == i,
        decreases v@.len() - i,
    {
        let x = v[i];
        let k = x.key();
        let mut j: usize = out.len();
        assert(out@.subrange(0, j as int) =~= out@);
        while j > 0 && out[j - 1].key() > k
            invariant
                0 <= j <= out@.len(),
                insert_pos(out@, k as int) == insert_pos(out@.subrange(0, j as int), k as int),
            decreases j,
        {
            assert(out@.subrange(0, j as int).drop_last() =~= out@.subrange(0, j - 1));
            j = j - 1;
        }
        assert(out@.subrange(0, j as int).len() == j);
        if j > 0 {
            assert(out@.subrange(0, j as int).last() == out@[j - 1]);
        }
        proof {
            lemma_insert_sorted(out@, x);
            let rest = v@.subrange(i as int, v@.len() as int);
            assert(rest[0] == x);
            assert(rest.drop_first() =~= v@.subrange(i + 1, v@.len() as int));
        }
        out.insert(j, x);
        i = i + 1;
    }
    proof {
        lemma_sort_into(Seq::<T>::empty(), v@);
    }
    out
}

} // verus!
