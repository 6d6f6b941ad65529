//! A stable sort of `(block, level)` pairs by level, used to order the
//! blocks confirmed by one ledger level: total order by level, ties broken
//! by the order in which the rebuild's search first referenced the blocks.

use vstd::prelude::*;
use crate::hash::H256;
use vstd::multiset::Multiset;

verus! {

pub type Entry = (H256, u64);

/// Sorted by level, ascending.
pub open spec fn sorted_by_level(s: Seq<Entry>) -> bool {
    forall|i: int, j: int| 0 <= i < j < s.len() ==> s[i].1 <= s[j].1
}

/// Insert `x` after every element whose level is at most `x`'s level.
pub open spec fn spec_insert_level(s: Seq<Entry>, x: Entry) -> Seq<Entry>
    decreases s.len(),
{
    if s.len() == 0 {
        seq![x]
    } else if s.last().1 <= x.1 {
        s.push(x)
    } else {
        spec_insert_level(s.drop_last(), x).push(s.last())
    }
}

/// Stable insertion sort by level.
pub open spec fn spec_sort_by_level(s: Seq<Entry>) -> Seq<Entry>
    decreases s.len(),
{
    if s.len() == 0 {
        Seq::empty()
    } else {
        spec_insert_level(spec_sort_by_level(s.drop_last()), s.last())
    }
}

pub proof fn lemma_insert_level_multiset(s: Seq<Entry>, x: Entry)
    ensures
        spec_insert_level(s, x).to_multiset() =~= s.to_multiset().insert(x),
    decreases s.len(),
{
    broadcast use vstd::seq_lib::group_to_multiset_ensures;

    if s.len() == 0 {
        assert(seq![x] =~= Seq::<Entry>::empty().push(x));
        assert(Seq::<Entry>::empty().to_multiset() =~= Multiset::<Entry>::empty());
    } else if s.last().1 <= x.1 {
    } else {
        lemma_insert_level_multiset(s.drop_last(), x);
        assert(s.drop_last().push(s.last()) =~= s);
        assert(s.drop_last().push(s.last()).to_multiset() =~= s.drop_last().to_multiset().insert(
            s.last(),
        ));
    }
}

pub proof fn lemma_insert_level_sorted(s: Seq<Entry>, x: Entry)
    requires
        sorted_by_level(s),
    ensures
        sorted_by_level(spec_insert_level(s, x)),
    decreases s.len(),
{
    broadcast use vstd::seq_lib::group_to_multiset_ensures;

    if s.len() == 0 {
    } else if s.last().1 <= x.1 {
    } else {
        let t = spec_insert_level(s.drop_last(), x);
        lemma_insert_level_sorted(s.drop_last(), x);
        lemma_insert_level_multiset(s.drop_last(), x);
        assert forall|i: int| 0 <= i < t.len() implies t[i].1 <= s.last().1 by {
            assert(t.to_multiset().count(t[i]) > 0);
            if t[i] == x {
            } else {
                assert(s.drop_last().to_multiset().count(t[i]) > 0);
                assert(s.drop_last().contains(t[i]));
                let j = choose|j: int| 0 <= j < s.drop_last().len() && s.drop_last()[j] == t[i];
                assert(s[j] == t[i]);
            }
        }
        let r = t.push(s.last());
        assert forall|i: int, j: int| 0 <= i < j < r.len() implies r[i].1 <= r[j].1 by {
            if j < r.len() - 1 {
                assert(r[i] == t[i] && r[j] == t[j]);
            } else {
                assert(r[i] == t[i]);
            }
        }
    }
}

pub proof fn lemma_sort_by_level_multiset(s: Seq<Entry>)
    ensures
        spec_sort_by_level(s).to_multiset() =~= s.to_multiset(),
        sorted_by_level(spec_sort_by_level(s)),
    decreases s.len(),
{
    broadcast use vstd::seq_lib::group_to_multiset_ensures;

    if s.len() > 0 {
        lemma_sort_by_level_multiset(s.drop_last());
        lemma_insert_level_multiset(spec_sort_by_level(s.drop_last()), s.last());
        lemma_insert_level_sorted(spec_sort_by_level(s.drop_last()), s.last());
        assert(s.drop_last().push(s.last()) =~= s);
        assert(s.drop_last().push(s.last()).to_multiset() =~= s.drop_last().to_multiset().insert(
            s.last(),
        ));
    }
}

/// The sorted sequence holds exactly the elements of the input, once each
/// if the input had no duplicates.
pub proof fn lemma_sort_by_level_elems(s: Seq<Entry>)
    ensures
        forall|x: Entry| spec_sort_by_level(s).contains(x) <==> s.contains(x),
        s.no_duplicates() ==> spec_sort_by_level(s).no_duplicates(),
        spec_sort_by_level(s).len() == s.len(),
{
    broadcast use vstd::seq_lib::group_to_multiset_ensures;

    lemma_sort_by_level_multiset(s);
    let t = spec_sort_by_level(s);
    assert(t.len() == t.to_multiset().len());
    assert(s.len() == s.to_multiset().len());
    assert forall|x: Entry| t.contains(x) <==> s.contains(x) by {
        assert(t.to_multiset().count(x) == s.to_multiset().count(x));
    }
    if s.no_duplicates() {
        s.lemma_multiset_has_no_duplicates();
        assert forall|x: Entry| t.to_multiset().contains(x) implies t.to_multiset().count(x)
            == 1 by {
            assert(s.to_multiset().count(x) == t.to_multiset().count(x));
        }
        t.lemma_multiset_has_no_duplicates_conv();
    }
}

/// Positional characterization of the stable insertion: inserting at any
/// boundary position between the levels at most `x`'s and those above.
proof fn lemma_insert_level_at(s: Seq<Entry>, x: Entry, j: int)
    requires
        sorted_by_level(s),
        0 <= j <= s.len(),
        j == 0 || s[j - 1].1 <= x.1,
        j == s.len() || s[j].1 > x.1,
    ensures
        spec_insert_level(s, x) =~= s.subrange(0, j) + seq![x] + s.subrange(j, s.len() as int),
    decreases s.len(),
{
    if s.len() == 0 {
    } else if s.last().1 <= x.1 {
        assert(j == s.len());
        assert(s.subrange(0, j) =~= s);
        assert(s.subrange(j, s.len() as int) =~= Seq::<Entry>::empty());
    } else {
        assert(j < s.len());
        let d = s.drop_last();
        assert(j == 0 || d[j - 1].1 <= x.1);
        assert(j == d.len() || d[j] == s[j]);
        lemma_insert_level_at(d, x, j);
        assert(d.subrange(0, j) =~= s.subrange(0, j));
        assert(spec_insert_level(s, x) =~= (d.subrange(0, j) + seq![x] + d.subrange(
            j,
            d.len() as int,
        )).push(s.last()));
    }
}

/// Sort `(block, level)` pairs by level; ties keep their input order.
pub fn sort_by_level(v: Vec<Entry>) -> (r: Vec<Entry>)
    ensures
        r@ == spec_sort_by_level(v@),
{
    let mut acc: Vec<Entry> = Vec::new();
    let n = v.len();
    let mut i: usize = 0;
    proof {
        assert(v@.subrange(0, 0) =~= Seq::<Entry>::empty());
    }
    #[verifier::loop_isolation(false)]
    while i < n
        invariant
            0 <= i <= n,
            acc@ == spec_sort_by_level(v@.subrange(0, i as int)),
            sorted_by_level(acc@),
        decreases n - i,
    {
        let x = v[i];
        let m = acc.len();
        let mut j: usize = 0;
        while j < m && acc[j].1 <= x.1
            invariant
                m == acc.len(),
                0 <= j <= m,
                forall|k: int| 0 <= k < j ==> acc@[k].1 <= x.1,
            decreases m - j,
        {
            j += 1;
        }
        let ghost pre = acc@;
        proof {
            lemma_insert_level_at(pre, x, j as int);
        }
        acc.insert(j, x);
        proof {
            assert(acc@ =~= spec_insert_level(pre, x)) by {
                assert(acc@ == pre.insert(j as int, x));
                assert(pre.insert(j as int, x) =~= pre.subrange(0, j as int) + seq![x]
                    + pre.subrange(j as int, pre.len() as int));
            }
            lemma_insert_level_sorted(pre, x);
            assert(v@.subrange(0, i + 1).drop_last() =~= v@.subrange(0, i as int));
            assert(v@.subrange(0, i + 1).last() == x);
        }
        i += 1;
    }
    proof {
        assert(v@.subrange(0, n as int) =~= v@);
    }
    acc
}

} // verus!
