//! A stable insertion sort, as a specification-level function together with
//! executable sorts for the element types the pipeline orders.

use vstd::multiset::Multiset;
use vstd::prelude::*;

verus! {

/// Inserts `x` into `s` immediately before the first element `e` with
/// `lt(x, e)`; after all equal elements, which makes sorting stable.
pub open spec fn insert_sorted<A>(lt: spec_fn(A, A) -> bool, x: A, s: Seq<A>) -> Seq<A>
    decreases s.len(),
{
    if s.len() == 0 {
        seq![x]
    } else if lt(x, s[0]) {
        seq![x] + s
    } else {
        seq![s[0]] + insert_sorted(lt, x, s.drop_first())
    }
}

/// Stable insertion sort of `s` under the strict order `lt`: elements are
/// inserted left to right.
pub open spec fn sort_spec<A>(lt: spec_fn(A, A) -> bool, s: Seq<A>) -> Seq<A>
    decreases s.len(),
{
    if s.len() == 0 {
        Seq::empty()
    } else {
        insert_sorted(lt, s.last(), sort_spec(lt, s.drop_last()))
    }
}

/// Where the insertion lands: if `x` is not below the first `k` elements and
/// is below the element at `k` (when there is one), the insertion splits `s`
/// at `k`.
pub proof fn lemma_insert_sorted_at<A>(lt: spec_fn(A, A) -> bool, x: A, s: Seq<A>, k: int)
    requires
        0 <= k <= s.len(),
        forall|j: int| 0 <= j < k ==> !lt(x, #[trigger] s[j]),
        k < s.len() ==> lt(x, s[k]),
    ensures
        insert_sorted(lt, x, s) =~= s.take(k) + seq![x] + s.skip(k),
    decreases s.len(),
{
    if s.len() == 0 {
        assert(insert_sorted(lt, x, s) =~= s.take(0) + seq![x] + s.skip(0));
    } else if k == 0 {
        assert(insert_sorted(lt, x, s) =~= s.take(0) + seq![x] + s.skip(0));
    } else {
        assert(!lt(x, s[0]));
        let rest = s.drop_first();
        assert(forall|j: int| 0 <= j < k - 1 ==> !lt(x, #[trigger] rest[j])) by {
            assert(forall|j: int| 0 <= j < k - 1 ==> rest[j] == s[j + 1]);
        }
        if k - 1 < rest.len() {
            assert(rest[k - 1] == s[k]);
        }
        lemma_insert_sorted_at(lt, x, rest, k - 1);
        assert(insert_sorted(lt, x, s) =~= s.take(k) + seq![x] + s.skip(k));
    }
}

/// Inserting adds exactly one occurrence of the inserted element.
pub proof fn lemma_insert_sorted_multiset<A>(lt: spec_fn(A, A) -> bool, x: A, s: Seq<A>)
    ensures
        insert_sorted(lt, x, s).to_multiset() =~= s.to_multiset().insert(x),
    decreases s.len(),
{
    broadcast use vstd::seq_lib::group_to_multiset_ensures;
    broadcast use vstd::multiset::group_multiset_axioms;

    if s.len() == 0 {
        assert(insert_sorted(lt, x, s) =~= Seq::empty().push(x));
    } else if lt(x, s[0]) {
        assert(insert_sorted(lt, x, s) =~= seq![x] + s);
        vstd::seq_lib::lemma_multiset_commutative(seq![x], s);
        assert(seq![x].to_multiset() =~= Multiset::empty().insert(x)) by {
            assert(seq![x] =~= Seq::empty().push(x));
        }
    } else {
        let rest = s.drop_first();
        lemma_insert_sorted_multiset(lt, x, rest);
        assert(insert_sorted(lt, x, s) =~= seq![s[0]] + insert_sorted(lt, x, rest));
        vstd::seq_lib::lemma_multiset_commutative(seq![s[0]], insert_sorted(lt, x, rest));
        vstd::seq_lib::lemma_multiset_commutative(seq![s[0]], rest);
        assert(s =~= seq![s[0]] + rest);
        assert(seq![s[0]].to_multiset() =~= Multiset::empty().insert(s[0])) by {
            assert(seq![s[0]] =~= Seq::empty().push(s[0]));
        }
    }
}

/// Sorting keeps exactly the elements of the input.
pub proof fn lemma_sort_spec_multiset<A>(lt: spec_fn(A, A) -> bool, s: Seq<A>)
    ensures
        sort_spec(lt, s).to_multiset() =~= s.to_multiset(),
    decreases s.len(),
{
    broadcast use vstd::seq_lib::group_to_multiset_ensures;
    broadcast use vstd::multiset::group_multiset_axioms;

    if s.len() == 0 {
    } else {
        lemma_sort_spec_multiset(lt, s.drop_last());
        lemma_insert_sorted_multiset(lt, s.last(), sort_spec(lt, s.drop_last()));
        assert(s =~= s.drop_last().push(s.last()));
    }
}

/// Sorting the empty sequence, spelled out for callers.
pub proof fn lemma_sort_spec_len<A>(lt: spec_fn(A, A) -> bool, s: Seq<A>)
    ensures
        sort_spec(lt, s).len() == s.len(),
    decreases s.len(),
{
    if s.len() == 0 {
    } else {
        lemma_sort_spec_len(lt, s.drop_last());
        lemma_insert_sorted_len(lt, s.last(), sort_spec(lt, s.drop_last()));
    }
}

/// Inserting grows the length by one.
pub proof fn lemma_insert_sorted_len<A>(lt: spec_fn(A, A) -> bool, x: A, s: Seq<A>)
    ensures
        insert_sorted(lt, x, s).len() == s.len() + 1,
    decreases s.len(),
{
    if s.len() == 0 {
    } else if lt(x, s[0]) {
    } else {
        lemma_insert_sorted_len(lt, x, s.drop_first());
    }
}

/// The strict order used to sort threshold samples: plain `<` on `u16`.
pub open spec fn u16_lt() -> spec_fn(u16, u16) -> bool {
    |a: u16, b: u16| a < b
}

/// Sorts intensity values ascending; the result is exactly the stable
/// insertion sort of the input.
pub fn sort_u16(v: &Vec<u16>) -> (r: Vec<u16>)
    ensures
        r@ == sort_spec(u16_lt(), v@),
{
    let mut out: Vec<u16> = Vec::new();
    let ghost lt = u16_lt();
    let mut i: usize = 0;
    while i < v.len()
        invariant
            0 <= i <= v@.len(),
            out@ == sort_spec(lt, v@.take(i as int)),
            lt == u16_lt(),
        decreases v@.len() - i,
    {
        let x = v[i];
        let mut k: usize = 0;
        while k < out.len() && out[k] <= x
            invariant
                0 <= k <= out@.len(),
                forall|j: int| 0 <= j < k ==> !lt(x, #[trigger] out@[j]),
                lt == u16_lt(),
            decreases out@.len() - k,
        {
            k += 1;
        }
        proof {
            lemma_insert_sorted_at(lt, x, out@, k as int);
            assert(v@.take(i + 1).drop_last() =~= v@.take(i as int));
            assert(v@.take(i + 1).last() == v@[i as int]);
            assert(out@.take(k as int) + seq![x] + out@.skip(k as int) =~= out@.insert(
                k as int,
                x,
            ));
        }
        out.insert(k, x);
        i += 1;
    }
    proof {
        assert(v@.take(v@.len() as int) =~= v@);
    }
    out
}

} // verus!
