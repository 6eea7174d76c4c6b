//! Sorting positions and numbers.

use crate::binary32;
use vstd::prelude::*;

verus! {

/// Whether numbers ascend.
pub open spec fn ascending(s: Seq<usize>) -> bool {
    forall|i: int, j: int| 0 <= i <= j < s.len() ==> s[i] <= s[j]
}

/// Whether numbers ascend and none comes twice.
pub open spec fn strictly_ascending(s: Seq<usize>) -> bool {
    forall|i: int, j: int| 0 <= i < j < s.len() ==> s[i] < s[j]
}

/// Whether bit patterns ascend in the total order of the numbers that they encode.
pub open spec fn ascending_numbers(s: Seq<u32>) -> bool {
    forall|i: int, j: int|
        0 <= i <= j < s.len() ==> binary32::total_key(#[trigger] s[i]) <= binary32::total_key(
            #[trigger] s[j],
        )
}

/// `slice::sort_unstable` of the standard library on `usize`: the same elements in ascending
/// order.
#[verifier::external_body]
fn sort_unstable(values: &mut Vec<usize>)
    ensures
        ascending(final(values)@),
        final(values)@.to_multiset() == old(values)@.to_multiset(),
{
    values.sort_unstable();
}

/// Two sequences of the same elements contain the same.
proof fn lemma_same_elements<A>(a: Seq<A>, b: Seq<A>, x: A)
    requires
        a.to_multiset() == b.to_multiset(),
    ensures
        a.contains(x) <==> b.contains(x),
{
    broadcast use vstd::seq_lib::group_to_multiset_ensures;

    assert(a.contains(x) <==> a.to_multiset().count(x) > 0);
    assert(b.contains(x) <==> b.to_multiset().count(x) > 0);
}

/// Sorts positions and drops repeated ones.
pub fn sort_and_dedup(positions: Vec<usize>) -> (r: Vec<usize>)
    ensures
        strictly_ascending(r@),
        forall|p: usize| #[trigger] r@.contains(p) <==> positions@.contains(p),
{
    let mut sorted = positions;
    sort_unstable(&mut sorted);
    let mut unique: Vec<usize> = Vec::new();
    let mut i: usize = 0;
    while i < sorted.len()
        invariant
            i <= sorted.len(),
            ascending(sorted@),
            strictly_ascending(unique@),
            unique.len() <= i,
            i > 0 ==> unique.len() > 0 && unique@.last() == sorted@[i - 1],
            forall|j: int| 0 <= j < i ==> unique@.contains(#[trigger] sorted@[j]),
            forall|j: int| 0 <= j < unique.len() ==> sorted@.contains(#[trigger] unique@[j]),
        decreases sorted.len() - i,
    {
        let p = sorted[i];
        let ghost before = unique@;
        if unique.len() == 0 || unique[unique.len() - 1] != p {
            unique.push(p);
            proof {
                assert forall|j: int| 0 <= j < i implies unique@.contains(
                    #[trigger] sorted@[j],
                ) by {
                    let k = before.index_of(sorted@[j]);
                    assert(unique@[k] == sorted@[j]);
                }
                assert(unique@[before.len() as int] == p);
                assert forall|j: int, k: int| 0 <= j < k < unique@.len() implies unique@[j]
                    < unique@[k] by {
                    if k == before.len() {
                        assert(before[before.len() - 1] == sorted@[i - 1]);
                        assert(before[j] <= before[before.len() - 1]);
                    }
                }
                assert(sorted@.contains(sorted@[i as int]));
            }
        } else {
            assert(unique@[unique@.len() - 1] == p);
        }
        i += 1;
    }
    proof {
        assert forall|p: usize| #[trigger] unique@.contains(p) <==> positions@.contains(p) by {
            lemma_same_elements(sorted@, positions@, p);
            if unique@.contains(p) {
                let k = unique@.index_of(p);
                assert(sorted@.contains(unique@[k]));
            }
            if sorted@.contains(p) {
                let k = sorted@.index_of(p);
                assert(unique@.contains(sorted@[k]));
            }
        }
    }
    unique
}

/// How often a rank comes up among the ranks of numbers.
proof fn lemma_count_ranks(numbers: Seq<u32>, ranks: Seq<usize>, x: u32, rank: usize)
    requires
        numbers.len() == ranks.len(),
        forall|i: int|
            0 <= i < numbers.len() ==> binary32::total_rank(#[trigger] numbers[i]) == ranks[i],
        binary32::total_rank(x) == rank,
    ensures
        numbers.to_multiset().count(x) == ranks.to_multiset().count(rank),
    decreases numbers.len(),
{
    broadcast use vstd::seq_lib::group_to_multiset_ensures;

    if numbers.len() == 0 {
        assert(numbers =~= Seq::<u32>::empty());
        assert(ranks =~= Seq::<usize>::empty());
    } else {
        let n = numbers.drop_last();
        let r = ranks.drop_last();
        assert forall|i: int| 0 <= i < n.len() implies binary32::total_rank(#[trigger] n[i])
            == r[i] by {
            assert(numbers[i] == n[i]);
        }
        lemma_count_ranks(n, r, x, rank);
        assert(numbers =~= n.push(numbers.last()));
        assert(ranks =~= r.push(ranks.last()));
        assert(binary32::total_rank(numbers[numbers.len() - 1]) == ranks.last());
        assert((numbers.last() == x) == (ranks.last() == rank));
        assert(n.push(numbers.last()).to_multiset() =~= n.to_multiset().insert(numbers.last()));
        assert(r.push(ranks.last()).to_multiset() =~= r.to_multiset().insert(ranks.last()));
    }
}

/// Sorts bit patterns by the total order of the numbers that they encode.
pub fn sort_numbers(numbers: &Vec<u32>) -> (r: Vec<u32>)
    ensures
        ascending_numbers(r@),
        r@.to_multiset() == numbers@.to_multiset(),
        r@.len() == numbers@.len(),
{
    broadcast use vstd::seq_lib::group_to_multiset_ensures;

    let mut ranks: Vec<usize> = Vec::new();
    let mut i: usize = 0;
    while i < numbers.len()
        invariant
            i <= numbers.len(),
            ranks.len() == i,
            forall|j: int|
                0 <= j < i ==> binary32::total_rank(#[trigger] numbers@[j]) == ranks@[j],
        decreases numbers.len() - i,
    {
        ranks.push(binary32::rank(numbers[i]) as usize);
        i += 1;
    }
    let ghost unsorted = ranks@;
    proof {
        assert forall|j: int| 0 <= j < unsorted.len() implies #[trigger] unsorted[j]
            <= u32::MAX by {
            assert(binary32::total_rank(numbers@[j]) == unsorted[j]);
        }
    }
    sort_unstable(&mut ranks);
    proof {
        assert(ranks@.len() == unsorted.len()) by {
            assert(ranks@.to_multiset().len() == ranks@.len());
            assert(unsorted.to_multiset().len() == unsorted.len());
        }
        assert forall|j: int| 0 <= j < ranks@.len() implies #[trigger] ranks@[j] <= u32::MAX by {
            lemma_same_elements(ranks@, unsorted, ranks@[j]);
            let k = unsorted.index_of(ranks@[j]);
            assert(unsorted[k] <= u32::MAX);
        }
    }
    let mut sorted: Vec<u32> = Vec::new();
    let mut i: usize = 0;
    while i < ranks.len()
        invariant
            i <= ranks.len(),
            sorted.len() == i,
            forall|j: int| 0 <= j < ranks@.len() ==> #[trigger] ranks@[j] <= u32::MAX,
            forall|j: int| 0 <= j < i ==> binary32::total_rank(#[trigger] sorted@[j]) == ranks@[j],
        decreases ranks.len() - i,
    {
        sorted.push(binary32::from_rank(ranks[i] as u32));
        i += 1;
    }
    proof {
        assert forall|i: int, j: int| 0 <= i <= j < sorted@.len() implies binary32::total_key(
            #[trigger] sorted@[i],
        ) <= binary32::total_key(#[trigger] sorted@[j]) by {
            assert(ranks@[i] <= ranks@[j]);
        }
        assert forall|x: u32| sorted@.to_multiset().count(x) == numbers@.to_multiset().count(x) by {
            let rank = binary32::total_rank(x) as usize;
            lemma_count_ranks(sorted@, ranks@, x, rank);
            lemma_count_ranks(numbers@, unsorted, x, rank);
        }
        assert(sorted@.to_multiset() =~= numbers@.to_multiset());
    }
    sorted
}

} // verus!
