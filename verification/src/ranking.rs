use crate::genome::Genome;
use vstd::prelude::*;

verus! {

/// The order of sort entries: by class, then by value, then by index.
pub open spec fn entry_leq(a: (u8, u128, usize), b: (u8, u128, usize)) -> bool {
    a.0 < b.0 || (a.0 == b.0 && (a.1 < b.1 || (a.1 == b.1 && a.2 <= b.2)))
}

/// Sorts entries in place.
///
/// Calls `sort_unstable` of the standard library's slices on triples of
/// integers.  Trusted: the slice afterwards holds the same entries, each as
/// often as before, in ascending order; triples are ordered by their first
/// component, then by their second, then by their third.
#[verifier::external_body]
pub(crate) fn sort_entries(entries: &mut Vec<(u8, u128, usize)>)
    ensures
        final(entries)@.to_multiset() == old(entries)@.to_multiset(),
        forall|i: int, j: int|
            0 <= i < j < final(entries)@.len() ==> entry_leq(
                #[trigger] final(entries)@[i],
                #[trigger] final(entries)@[j],
            ),
{
    entries.sort_unstable();
}

/// The candidate at index `a` ranks no later than the one at index `b`:
/// it has the better score, or the same score and the smaller index.
pub open spec fn ranks_before(list: Seq<Genome>, a: int, b: int) -> bool {
    list[a].fitness.rank_key() < list[b].fitness.rank_key() || (list[a].fitness.rank_key()
        == list[b].fitness.rank_key() && a <= b)
}

/// The index `i` stands somewhere in `order`.
pub open spec fn placed(order: Seq<usize>, i: int) -> bool {
    exists|j: int| 0 <= j < order.len() && #[trigger] order[j] == i
}

/// `order` lists every index of `list` once, best rank first.
pub open spec fn is_rank_order(list: Seq<Genome>, order: Seq<usize>) -> bool {
    &&& order.len() == list.len()
    &&& forall|j: int| 0 <= j < order.len() ==> #[trigger] order[j] < list.len()
    &&& forall|i: int, j: int|
        0 <= i < j < order.len() ==> #[trigger] order[i] != #[trigger] order[j]
    &&& forall|i: int| 0 <= i < list.len() ==> #[trigger] placed(order, i)
    &&& forall|i: int, j: int|
        0 <= i < j < order.len() ==> ranks_before(
            list,
            #[trigger] order[i] as int,
            #[trigger] order[j] as int,
        )
}

/// The candidates of `list`, taken in the order `order`.
pub open spec fn arranged(list: Seq<Genome>, order: Seq<usize>) -> Seq<Genome> {
    Seq::new(order.len(), |j: int| list[order[j] as int])
}

/// `after` holds the candidates of `before`, each once, best rank first.
pub open spec fn is_ranking_of(after: Seq<Genome>, before: Seq<Genome>) -> bool {
    exists|order: Seq<usize>| is_rank_order(before, order) && after == arranged(before, order)
}

/// Scores never get better along `list`: every candidate is at least as
/// good as all that follow it.
pub open spec fn ranked(list: Seq<Genome>) -> bool {
    forall|i: int, j: int|
        0 <= i < j < list.len() ==> (#[trigger] list[i]).fitness.no_worse_than(
            (#[trigger] list[j]).fitness,
        )
}

/// In a ranked list every candidate without a finite score stands after
/// every candidate with one, whatever the finite scores are.
pub proof fn lemma_non_finite_rank_last(list: Seq<Genome>, i: int, j: int)
    requires
        ranked(list),
        0 <= i < list.len(),
        0 <= j < list.len(),
        list[i].fitness is NonFinite,
        list[j].fitness is Finite,
    ensures
        j < i,
{
    if i < j {
        assert(list[i].fitness.no_worse_than(list[j].fitness));
    }
}

/// A list arranged in rank order is ranked.
pub proof fn lemma_arranged_is_ranked(list: Seq<Genome>, order: Seq<usize>)
    requires
        is_rank_order(list, order),
    ensures
        ranked(arranged(list, order)),
{
    let after = arranged(list, order);
    assert forall|i: int, j: int| 0 <= i < j < after.len() implies (#[trigger] after[i])
        .fitness.no_worse_than((#[trigger] after[j]).fitness) by {
        assert(ranks_before(list, order[i] as int, order[j] as int));
    }
}

proof fn lemma_rank_orders_agree(
    list: Seq<Genome>,
    first: Seq<usize>,
    second: Seq<usize>,
    k: nat,
)
    requires
        is_rank_order(list, first),
        is_rank_order(list, second),
        k <= list.len(),
    ensures
        forall|j: int| 0 <= j < k ==> first[j] == second[j],
    decreases k,
{
    if k > 0 {
        lemma_rank_orders_agree(list, first, second, (k - 1) as nat);
        let p = k - 1;
        let x = first[p];
        let y = second[p];
        if x != y {
            assert(placed(second, x as int));
            let m = choose|m: int| 0 <= m < second.len() && #[trigger] second[m] == x as int;
            if m < p {
                assert(first[m] == second[m]);
                assert(first[m] != first[p]);
            }
            assert(ranks_before(list, second[p] as int, second[m] as int));
            assert(placed(first, y as int));
            let w = choose|w: int| 0 <= w < first.len() && #[trigger] first[w] == y as int;
            if w < p {
                assert(first[w] == second[w]);
                assert(second[w] != second[p]);
            }
            assert(ranks_before(list, first[p] as int, first[w] as int));
        }
    }
}

/// A list has one rank order only.
pub proof fn lemma_rank_order_unique(list: Seq<Genome>, first: Seq<usize>, second: Seq<usize>)
    requires
        is_rank_order(list, first),
        is_rank_order(list, second),
    ensures
        first == second,
{
    lemma_rank_orders_agree(list, first, second, list.len());
    assert(first =~= second);
}

/// Ranking pins the result: two rankings of one list are the same list.
pub proof fn lemma_ranking_unique(list: Seq<Genome>, first: Seq<Genome>, second: Seq<Genome>)
    requires
        is_ranking_of(first, list),
        is_ranking_of(second, list),
    ensures
        first == second,
{
    let a = choose|order: Seq<usize>| is_rank_order(list, order) && first == arranged(list, order);
    let b = choose|order: Seq<usize>| is_rank_order(list, order) && second == arranged(list, order);
    lemma_rank_order_unique(list, a, b);
}

/// A list with a rank order is no longer than its indices can tell.
pub proof fn lemma_rank_order_bounds_length(list: Seq<Genome>, order: Seq<usize>)
    requires
        is_rank_order(list, order),
    ensures
        list.len() <= usize::MAX + 1,
{
    if list.len() > 0 {
        assert(placed(order, list.len() - 1));
    }
}

/// On a ranked list the order of the slots is the rank order.
pub proof fn lemma_ranked_list_is_its_own_ranking(list: Seq<Genome>)
    requires
        ranked(list),
        list.len() <= usize::MAX + 1,
    ensures
        exists|same: Seq<usize>|
            is_rank_order(list, same) && (forall|j: int| 0 <= j < same.len() ==> same[j] == j),
        is_ranking_of(list, list),
{
    let same = Seq::new(list.len(), |j: int| j as usize);
    assert(is_rank_order(list, same)) by {
        assert forall|i: int| 0 <= i < list.len() implies #[trigger] placed(same, i) by {
            assert(same[i] == i);
        }
        assert forall|i: int, j: int| 0 <= i < j < same.len() implies ranks_before(
            list,
            #[trigger] same[i] as int,
            #[trigger] same[j] as int,
        ) by {
            assert(list[i].fitness.no_worse_than(list[j].fitness));
        }
    }
    assert(arranged(list, same) =~= list);
}

/// Ranking is idempotent: ranking a ranking changes nothing.
pub proof fn lemma_ranking_is_idempotent(
    list: Seq<Genome>,
    once: Seq<Genome>,
    twice: Seq<Genome>,
)
    requires
        is_ranking_of(once, list),
        is_ranking_of(twice, once),
    ensures
        twice == once,
{
    let order = choose|order: Seq<usize>|
        is_rank_order(list, order) && once == arranged(list, order);
    lemma_arranged_is_ranked(list, order);
    lemma_rank_order_bounds_length(list, order);
    lemma_ranked_list_is_its_own_ranking(once);
    lemma_ranking_unique(once, twice, once);
}

spec fn entries_of(list: Seq<Genome>) -> Seq<(u8, u128, usize)> {
    Seq::new(
        list.len(),
        |i: int| (list[i].fitness.key_pair().0, list[i].fitness.key_pair().1, i as usize),
    )
}

/// The indices that the entries carry.
pub open spec fn indices_of(entries: Seq<(u8, u128, usize)>) -> Seq<usize> {
    Seq::new(entries.len(), |j: int| entries[j].2)
}

/// Each entry carries its own position.
pub open spec fn numbered(entries: Seq<(u8, u128, usize)>) -> bool {
    forall|i: int| 0 <= i < entries.len() ==> (#[trigger] entries[i]).2 == i
}

/// Sorted entries are the numbered entries they were sorted from, each
/// once: every sorted entry is the source entry of the index it carries,
/// no index occurs twice, and every index occurs.
pub proof fn lemma_sorted_entries(
    source: Seq<(u8, u128, usize)>,
    sorted: Seq<(u8, u128, usize)>,
)
    requires
        numbered(source),
        sorted.to_multiset() == source.to_multiset(),
    ensures
        sorted.len() == source.len(),
        forall|j: int|
            0 <= j < sorted.len() ==> (#[trigger] sorted[j]).2 < source.len() && sorted[j]
                == source[sorted[j].2 as int],
        forall|i: int, j: int|
            0 <= i < j < sorted.len() ==> (#[trigger] sorted[i]).2 != (#[trigger] sorted[j]).2,
        forall|i: int| 0 <= i < source.len() ==> #[trigger] placed(indices_of(sorted), i),
{
    broadcast use vstd::seq_lib::group_to_multiset_ensures;

    assert(sorted.len() == sorted.to_multiset().len());
    assert(source.len() == source.to_multiset().len());
    assert forall|j: int| 0 <= j < sorted.len() implies (#[trigger] sorted[j]).2 < source.len()
        && sorted[j] == source[sorted[j].2 as int] by {
        assert(sorted.contains(sorted[j]));
        assert(sorted.to_multiset().count(sorted[j]) > 0);
        assert(source.contains(sorted[j]));
        let i = choose|i: int| 0 <= i < source.len() && source[i] == sorted[j];
        assert(source[i].2 == i);
    }
    assert(source.no_duplicates()) by {
        assert forall|a: int, b: int|
            0 <= a < source.len() && 0 <= b < source.len() && a != b implies source[a]
            != source[b] by {
            assert(source[a].2 == a);
            assert(source[b].2 == b);
        }
    }
    source.lemma_multiset_has_no_duplicates();
    sorted.lemma_multiset_has_no_duplicates_conv();
    let indices = indices_of(sorted);
    assert forall|i: int| 0 <= i < source.len() implies #[trigger] placed(indices, i) by {
        assert(source.contains(source[i]));
        assert(sorted.to_multiset().count(source[i]) > 0);
        assert(sorted.contains(source[i]));
        let j = choose|j: int| 0 <= j < sorted.len() && sorted[j] == source[i];
        assert(source[i].2 == i);
        assert(indices[j] == i);
    }
    assert forall|i: int, j: int| 0 <= i < j < sorted.len() implies (#[trigger] sorted[i]).2 != (
    #[trigger] sorted[j]).2 by {
        assert(sorted[i] != sorted[j]);
    }
}

/// Ranks the candidates: returns every index of `list` once, ordered by
/// score with the best first, every non-finite score after all finite ones,
/// and equal scores in the order of their indices.
pub fn rank_order(list: &Vec<Genome>) -> (order: Vec<usize>)
    ensures
        is_rank_order(list@, order@),
{
    let n = list.len();
    let mut entries: Vec<(u8, u128, usize)> = Vec::with_capacity(n);
    let mut i: usize = 0;
    while i < n
        invariant
            n == list.len(),
            i <= n,
            entries@.len() == i,
            forall|k: int| 0 <= k < i ==> #[trigger] entries@[k] == entries_of(list@)[k],
        decreases n - i,
    {
        let key = list[i].fitness.sort_key();
        entries.push((key.0, key.1, i));
        i += 1;
    }
    let ghost source = entries@;
    proof {
        assert(source =~= entries_of(list@));
    }
    sort_entries(&mut entries);
    proof {
        lemma_sorted_entries(source, entries@);
    }
    let mut order: Vec<usize> = Vec::with_capacity(n);
    let mut j: usize = 0;
    while j < n
        invariant
            n == list.len(),
            n == entries@.len(),
            j <= n,
            order@.len() == j,
            forall|k: int| 0 <= k < j ==> #[trigger] order@[k] == entries@[k].2,
        decreases n - j,
    {
        order.push(entries[j].2);
        j += 1;
    }
    proof {
        assert forall|a: int, b: int| 0 <= a < b < order@.len() implies ranks_before(
            list@,
            #[trigger] order@[a] as int,
            #[trigger] order@[b] as int,
        ) by {
            assert(entry_leq(entries@[a], entries@[b]));
            assert(entries@[a] == source[entries@[a].2 as int]);
            assert(entries@[b] == source[entries@[b].2 as int]);
        }
        assert forall|a: int, b: int| 0 <= a < b < order@.len() implies #[trigger] order@[a]
            != #[trigger] order@[b] by {
            assert(entries@[a].2 != entries@[b].2);
        }
        assert(order@ =~= indices_of(entries@));
    }
    order
}

} // verus!
