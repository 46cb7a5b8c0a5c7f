use crate::errors::CalibrationError;
use crate::fitness::Fitness;
use crate::fixed_point::UNIT;
use crate::genome::{Genome, GENE_COUNT};
use crate::operators::{
    blend,
    draw_coins,
    draw_noise,
    effective_intensity,
    is_blend,
    is_drawn_rank,
    is_mutation,
    mutate_individual,
    random_gene,
    lemma_total_weight_is_positive,
    rank_for_draw,
    rank_weights,
    sum_weights,
    total_weight,
    weights_of,
    CrossoverDraw,
    MutationDraw,
};
use crate::random::{random_helper, uniform_below};
use crate::ranking::{
    arranged,
    is_rank_order,
    is_ranking_of,
    lemma_arranged_is_ranked,
    lemma_non_finite_rank_last,
    lemma_rank_order_bounds_length,
    lemma_rank_order_unique,
    lemma_ranked_list_is_its_own_ranking,
    lemma_ranking_is_idempotent,
    lemma_ranking_unique,
    placed,
    rank_order,
    ranked,
};
use vstd::arithmetic::div_mod::{
    lemma_div_is_ordered,
    lemma_fundamental_div_mod,
    lemma_hoist_over_denominator,
};
use vstd::prelude::*;

verus! {

/// The candidates of one generation with the knobs of the search.
///
/// Rates, the elite fraction and the mutation intensity are held on the
/// scale of `UNIT`; the intensity alone may exceed one.  Bounds and genes
/// are in the units of their genes.
#[derive(Clone, Debug)]
pub struct Population {
    pub best_fitness: Fitness,
    pub worst_fitness: Fitness,
    pub average_fitness: Fitness,
    pub mutation_intensity: u64,
    pub crossover_rate: u64,
    pub mutation_rate: u64,
    pub elite_size: u64,
    pub individual_list: Vec<Genome>,
    pub parameter_bounds_upper: [i64; 10],
    pub parameter_bounds_lower: [i64; 10],
    pub current_generation: u64,
    pub maximum_generation: u64,
}

/// The mutation rate of a generation: it falls evenly from the nominal
/// rate at the start to a tenth of it at the last generation.
pub open spec fn adaptive_mutation_rate(rate: u64, generation: u64, maximum: u64) -> int {
    rate * (10 * maximum - 9 * generation) / (10 * maximum)
}

/// The crossover rate of a generation: it rises evenly from half the
/// nominal rate at the start to the nominal rate at the last generation.
pub open spec fn adaptive_crossover_rate(rate: u64, generation: u64, maximum: u64) -> int {
    rate * (maximum + generation) / (2 * maximum)
}

/// The sum of the finite scores among the first `n` candidates.
pub open spec fn finite_total(list: Seq<Genome>, n: nat) -> nat
    decreases n,
{
    if n == 0 {
        0
    } else {
        finite_total(list, (n - 1) as nat) + match list[n - 1].fitness {
            Fitness::Finite(v) => v as nat,
            Fitness::NonFinite => 0,
        }
    }
}

/// `best` is the best score in `list`: non-finite where no score is finite.
pub open spec fn is_best_of(best: Fitness, list: Seq<Genome>) -> bool {
    &&& forall|i: int| 0 <= i < list.len() ==> best.no_worse_than(#[trigger] list[i].fitness)
    &&& best is Finite ==> exists|i: int| 0 <= i < list.len() && #[trigger] list[i].fitness == best
}

/// `best` is the better of the score `incumbent` and the best score in
/// `list`.
pub open spec fn is_best_with(best: Fitness, incumbent: Fitness, list: Seq<Genome>) -> bool {
    &&& best.no_worse_than(incumbent)
    &&& forall|i: int| 0 <= i < list.len() ==> best.no_worse_than(#[trigger] list[i].fitness)
    &&& best == incumbent || exists|i: int|
        0 <= i < list.len() && #[trigger] list[i].fitness == best
}

/// `index` is where the best candidate of `list` stands: the first one with
/// the best finite score, or zero where no score is finite.
pub open spec fn is_best_index(list: Seq<Genome>, index: int) -> bool {
    if forall|i: int| 0 <= i < list.len() ==> (#[trigger] list[i]).fitness is NonFinite {
        index == 0
    } else {
        &&& 0 <= index < list.len()
        &&& is_best_of(list[index].fitness, list)
        &&& forall|j: int| 0 <= j < index ==> (#[trigger] list[j]).fitness != list[index].fitness
    }
}

/// The better of an incumbent and the best score of a list is the better
/// of the two.
pub proof fn lemma_best_with(incumbent: Fitness, found: Fitness, list: Seq<Genome>)
    requires
        is_best_of(found, list),
    ensures
        is_best_with(incumbent.better_of(found), incumbent, list),
{
    let best = incumbent.better_of(found);
    assert forall|i: int| 0 <= i < list.len() implies best.no_worse_than(
        #[trigger] list[i].fitness,
    ) by {
        assert(found.no_worse_than(list[i].fitness));
    }
    if best != incumbent {
        assert(best == found);
        assert(found is Finite);
    }
}

/// There is one such score only.
pub proof fn lemma_best_with_is_unique(
    first: Fitness,
    second: Fitness,
    incumbent: Fitness,
    list: Seq<Genome>,
)
    requires
        is_best_with(first, incumbent, list),
        is_best_with(second, incumbent, list),
    ensures
        first == second,
{
    if first != incumbent {
        let i = choose|i: int| 0 <= i < list.len() && #[trigger] list[i].fitness == first;
        assert(second.no_worse_than(list[i].fitness));
    }
    if second != incumbent {
        let j = choose|j: int| 0 <= j < list.len() && #[trigger] list[j].fitness == second;
        assert(first.no_worse_than(list[j].fitness));
    }
}

/// Some candidate of `list` has the score `score`.
pub open spec fn has_score(list: Seq<Genome>, score: Fitness) -> bool {
    exists|i: int| 0 <= i < list.len() && #[trigger] list[i].fitness == score
}

/// The two lists hold the same scores.
pub open spec fn share_scores(first: Seq<Genome>, second: Seq<Genome>) -> bool {
    forall|score: Fitness| #[trigger] has_score(first, score) <==> has_score(second, score)
}

/// A ranking holds the scores of the list that was ranked.
pub proof fn lemma_ranking_shares_scores(after: Seq<Genome>, before: Seq<Genome>)
    requires
        is_ranking_of(after, before),
    ensures
        share_scores(before, after),
{
    let order = choose|order: Seq<usize>|
        is_rank_order(before, order) && after == arranged(before, order);
    assert forall|score: Fitness| #[trigger] has_score(before, score) <==> has_score(
        after,
        score,
    ) by {
        if has_score(before, score) {
            let i = choose|i: int| 0 <= i < before.len() && #[trigger] before[i].fitness == score;
            assert(placed(order, i));
            let j = choose|j: int| 0 <= j < order.len() && #[trigger] order[j] == i;
            assert(after[j].fitness == score);
        }
        if has_score(after, score) {
            let j = choose|j: int| 0 <= j < after.len() && #[trigger] after[j].fitness == score;
            assert(before[order[j] as int].fitness == score);
        }
    }
}

/// Lists with the same scores slot by slot hold the same scores.
pub proof fn lemma_same_scores_share(first: Seq<Genome>, second: Seq<Genome>)
    requires
        same_scores(first, second),
    ensures
        share_scores(first, second),
{
    assert forall|score: Fitness| #[trigger] has_score(first, score) <==> has_score(
        second,
        score,
    ) by {
        if has_score(first, score) {
            let i = choose|i: int| 0 <= i < first.len() && #[trigger] first[i].fitness == score;
            assert(second[i].fitness == score);
        }
        if has_score(second, score) {
            let i = choose|i: int| 0 <= i < second.len() && #[trigger] second[i].fitness == score;
            assert(first[i].fitness == score);
        }
    }
}

/// Over a generation the recorded best score becomes the better of the one
/// recorded before and the best score of the candidates: the two rankings
/// and the closing statistics each take the better of the recorded score
/// and a score of the candidates, and the candidates keep their scores.
pub proof fn lemma_generation_best(
    old_best: Fitness,
    opened_best: Fitness,
    closed_best: Fitness,
    final_best: Fitness,
    evaluated: Seq<Genome>,
    opened: Seq<Genome>,
    closed: Seq<Genome>,
)
    requires
        share_scores(evaluated, opened),
        share_scores(evaluated, closed),
        opened_best == if opened.len() > 0 {
            old_best.better_of(opened[0].fitness)
        } else {
            old_best
        },
        closed_best == if closed.len() > 0 {
            opened_best.better_of(closed[0].fitness)
        } else {
            opened_best
        },
        is_best_with(final_best, closed_best, closed),
    ensures
        is_best_with(final_best, old_best, evaluated),
{
    assert forall|i: int| 0 <= i < evaluated.len() implies final_best.no_worse_than(
        #[trigger] evaluated[i].fitness,
    ) by {
        assert(has_score(evaluated, evaluated[i].fitness));
        assert(has_score(closed, evaluated[i].fitness));
        let j = choose|j: int|
            0 <= j < closed.len() && #[trigger] closed[j].fitness == evaluated[i].fitness;
        assert(final_best.no_worse_than(closed[j].fitness));
    }
    if final_best != old_best {
        if final_best != closed_best {
            assert(has_score(closed, final_best));
        } else if closed_best != opened_best {
            assert(closed[0].fitness == final_best);
            assert(has_score(closed, final_best));
        } else {
            assert(opened[0].fitness == final_best);
            assert(has_score(opened, final_best));
        }
        assert(has_score(evaluated, final_best));
    }
}

/// In a ranked list the best candidate stands first.
pub proof fn lemma_ranked_best_stands_first(list: Seq<Genome>, index: int)
    requires
        ranked(list),
        is_best_index(list, index),
    ensures
        index == 0,
{
    if index > 0 {
        assert(list[0].fitness.no_worse_than(list[index].fitness));
        assert(list[index].fitness.no_worse_than(list[0].fitness));
        assert(list[0].fitness == list[index].fitness);
    }
}

/// `worst` is the largest finite score in `list`: non-finite where no score
/// is finite.
pub open spec fn is_worst_of(worst: Fitness, list: Seq<Genome>) -> bool {
    &&& forall|i: int|
        0 <= i < list.len() && (#[trigger] list[i].fitness) is Finite ==> worst is Finite
            && list[i].fitness.no_worse_than(worst)
    &&& worst is Finite ==> exists|i: int|
        0 <= i < list.len() && #[trigger] list[i].fitness == worst
}

/// The average score: the finite scores added up and divided by the number
/// of all candidates, so that candidates without a finite score pull the
/// average down.  Non-finite for an empty list.
pub open spec fn average_of(list: Seq<Genome>) -> Fitness {
    if list.len() == 0 {
        Fitness::NonFinite
    } else {
        Fitness::Finite((finite_total(list, list.len()) / list.len()) as u128)
    }
}

/// At the first generation the mutation rate is the nominal one and the
/// crossover rate half the nominal one; at the last generation the mutation
/// rate is a tenth of the nominal one and the crossover rate the nominal
/// one.
pub proof fn lemma_rates_at_the_ends(rate: u64, maximum: u64)
    requires
        maximum > 0,
    ensures
        adaptive_mutation_rate(rate, 0, maximum) == rate,
        adaptive_crossover_rate(rate, 0, maximum) == rate / 2,
        adaptive_mutation_rate(rate, maximum, maximum) == rate / 10,
        adaptive_crossover_rate(rate, maximum, maximum) == rate,
{
    assert(rate * (10 * maximum) / (10 * maximum) == rate) by (nonlinear_arith)
        requires
            maximum > 0,
    ;
    assert(rate * maximum / (2 * maximum) == rate / 2) by (nonlinear_arith)
        requires
            maximum > 0,
    ;
    assert(rate * maximum / (10 * maximum) == rate / 10) by (nonlinear_arith)
        requires
            maximum > 0,
    ;
    assert(rate * (2 * maximum) / (2 * maximum) == rate) by (nonlinear_arith)
        requires
            maximum > 0,
    ;
    assert(10 * maximum - 9 * 0 == 10 * maximum);
    assert(10 * maximum - 9 * maximum == maximum);
    assert(maximum + 0 == maximum);
    assert(maximum + maximum == 2 * maximum);
}

/// The mutation rate never rises and the crossover rate never falls from
/// one generation to a later one.
pub proof fn lemma_rates_are_monotone(rate: u64, earlier: u64, later: u64, maximum: u64)
    requires
        maximum > 0,
        earlier <= later <= maximum,
    ensures
        adaptive_mutation_rate(rate, later, maximum) <= adaptive_mutation_rate(
            rate,
            earlier,
            maximum,
        ),
        adaptive_crossover_rate(rate, earlier, maximum) <= adaptive_crossover_rate(
            rate,
            later,
            maximum,
        ),
{
    let d = 10 * maximum;
    let a = rate * (10 * maximum - 9 * later);
    let b = rate * (10 * maximum - 9 * earlier);
    assert(a <= b) by (nonlinear_arith)
        requires
            a == rate * (10 * maximum - 9 * later),
            b == rate * (10 * maximum - 9 * earlier),
            earlier <= later,
            rate >= 0,
    ;
    vstd::arithmetic::div_mod::lemma_div_is_ordered(a, b, d);
    let e = 2 * maximum;
    let x = rate * (maximum + earlier);
    let y = rate * (maximum + later);
    assert(x <= y) by (nonlinear_arith)
        requires
            x == rate * (maximum + earlier),
            y == rate * (maximum + later),
            earlier <= later,
            rate >= 0,
    ;
    vstd::arithmetic::div_mod::lemma_div_is_ordered(x, y, e);
}

/// The finite scores of `n` candidates add up to at most `n` times the
/// largest score there is.
pub proof fn lemma_finite_total_bound(list: Seq<Genome>, n: nat)
    ensures
        finite_total(list, n) <= n * u128::MAX,
    decreases n,
{
    if n > 0 {
        lemma_finite_total_bound(list, (n - 1) as nat);
        assert((n - 1) * u128::MAX + u128::MAX == n * u128::MAX) by (nonlinear_arith);
    }
}

/// `value` is gene `g` of some candidate of `list`.
pub open spec fn gene_in_pool(list: Seq<Genome>, g: int, value: i64) -> bool {
    exists|d: int| 0 <= d < list.len() && (#[trigger] list[d]).genes@[g] == value
}

/// A candidate as it is created: index `id`, no score yet, every gene
/// within its bounds and below the upper one.
pub open spec fn is_fresh(individual: Genome, id: int, lower: Seq<i64>, upper: Seq<i64>) -> bool {
    &&& individual.id == id
    &&& individual.fitness == Fitness::NonFinite
    &&& forall|g: int|
        0 <= g < GENE_COUNT ==> lower[g] <= #[trigger] individual.genes@[g] < upper[g]
}

/// `after` is `before` with the candidate in `slot` recombined with the
/// one in `donor`.
pub open spec fn slot_blended(
    before: Seq<Genome>,
    after: Seq<Genome>,
    slot: int,
    donor: int,
    coins: Seq<u64>,
) -> bool {
    &&& after.len() == before.len()
    &&& forall|i: int| 0 <= i < before.len() && i != slot ==> #[trigger] after[i] == before[i]
    &&& is_blend(after[slot], before[slot], before[donor], coins)
}

/// `after` is `before` once the elite slot of rank `r` has gone by its
/// draw: recombined with the donor that the rank draw selects where the
/// decision lies below the rate, unchanged otherwise.
pub open spec fn slot_crossed(
    before: Seq<Genome>,
    after: Seq<Genome>,
    order: Seq<usize>,
    rate: int,
    draw: CrossoverDraw,
    r: int,
) -> bool {
    if draw.decision < rate {
        exists|rank: int|
            {
                &&& is_drawn_rank(weights_of(before.len()), draw.rank_draw as int, rank)
                &&& slot_blended(
                    before,
                    after,
                    order[r] as int,
                    #[trigger] order[rank] as int,
                    draw.coins@,
                )
            }
    } else {
        after == before
    }
}

/// `after` is `before` once the elite slots of the first `r` ranks have
/// gone by their draws, one after the other, best rank first.
pub open spec fn crossed(
    before: Seq<Genome>,
    after: Seq<Genome>,
    order: Seq<usize>,
    rate: int,
    draws: Seq<CrossoverDraw>,
    r: nat,
) -> bool
    decreases r,
{
    if r == 0 {
        after == before
    } else {
        exists|mid: Seq<Genome>|
            {
                &&& crossed(before, mid, order, rate, draws, (r - 1) as nat)
                &&& #[trigger] slot_crossed(mid, after, order, rate, draws[r - 1], r - 1)
            }
    }
}

/// Recombination proceeds slot by slot.
pub proof fn lemma_crossed_extends(
    before: Seq<Genome>,
    mid: Seq<Genome>,
    after: Seq<Genome>,
    order: Seq<usize>,
    rate: int,
    draws: Seq<CrossoverDraw>,
    r: nat,
)
    requires
        r < draws.len(),
        crossed(before, mid, order, rate, draws, r),
        slot_crossed(mid, after, order, rate, draws[r as int], r as int),
    ensures
        crossed(before, after, order, rate, draws, r + 1),
{
    let next = r + 1;
    assert(crossed(before, mid, order, rate, draws, (next - 1) as nat));
    assert(slot_crossed(mid, after, order, rate, draws[next - 1], next - 1));
}

/// `slot` holds one of the `count` best-ranked candidates of `list`.
pub open spec fn is_elite_slot(list: Seq<Genome>, count: nat, slot: int) -> bool {
    exists|order: Seq<usize>, r: int|
        is_rank_order(list, order) && 0 <= r < count && r < order.len() && #[trigger] order[r]
            == slot
}

/// The same scores and indices, slot by slot.
pub open spec fn same_scores(first: Seq<Genome>, second: Seq<Genome>) -> bool {
    &&& first.len() == second.len()
    &&& forall|i: int|
        0 <= i < first.len() ==> (#[trigger] first[i]).fitness == second[i].fitness && first[i].id
            == second[i].id
}

/// The best score of a ranked list is the best score of the list that was
/// ranked.
pub proof fn lemma_best_of_ranking(best: Fitness, after: Seq<Genome>, before: Seq<Genome>)
    requires
        is_ranking_of(after, before),
        is_best_of(best, after),
    ensures
        is_best_of(best, before),
{
    let order = choose|order: Seq<usize>|
        is_rank_order(before, order) && after == arranged(before, order);
    assert forall|i: int| 0 <= i < before.len() implies best.no_worse_than(
        #[trigger] before[i].fitness,
    ) by {
        assert(placed(order, i));
        let j = choose|j: int| 0 <= j < order.len() && #[trigger] order[j] == i;
        assert(after[j] == before[i]);
    }
    if best is Finite {
        let j = choose|j: int| 0 <= j < after.len() && #[trigger] after[j].fitness == best;
        assert(before[order[j] as int].fitness == best);
    }
}

/// A list has one best score and one worst score only.
pub proof fn lemma_extremes_are_unique(list: Seq<Genome>, first: Fitness, second: Fitness)
    ensures
        is_best_of(first, list) && is_best_of(second, list) ==> first == second,
        is_worst_of(first, list) && is_worst_of(second, list) ==> first == second,
{
    if is_best_of(first, list) && is_best_of(second, list) {
        if first is Finite {
            let i = choose|i: int| 0 <= i < list.len() && #[trigger] list[i].fitness == first;
            assert(second.no_worse_than(list[i].fitness));
        }
        if second is Finite {
            let j = choose|j: int| 0 <= j < list.len() && #[trigger] list[j].fitness == second;
            assert(first.no_worse_than(list[j].fitness));
        }
    }
    if is_worst_of(first, list) && is_worst_of(second, list) {
        if first is Finite {
            let i = choose|i: int| 0 <= i < list.len() && #[trigger] list[i].fitness == first;
            assert(list[i].fitness.no_worse_than(second));
        }
        if second is Finite {
            let j = choose|j: int| 0 <= j < list.len() && #[trigger] list[j].fitness == second;
            assert(list[j].fitness.no_worse_than(first));
        }
    }
}

/// Ranking a population is idempotent: ranked once more, it keeps its
/// candidates in their places and its best, worst and average score.
pub proof fn lemma_ranking_twice_changes_nothing(
    before: Population,
    once: Population,
    twice: Population,
)
    requires
        once.is_ranked_from(before),
        twice.is_ranked_from(once),
    ensures
        twice.individual_list@ == once.individual_list@,
        twice.best_fitness == once.best_fitness,
        twice.worst_fitness == once.worst_fitness,
        twice.average_fitness == once.average_fitness,
{
    lemma_ranking_is_idempotent(
        before.individual_list@,
        once.individual_list@,
        twice.individual_list@,
    );
    lemma_extremes_are_unique(once.individual_list@, once.worst_fitness, twice.worst_fitness);
}

/// Recombination keeps the number of candidates, their scores and their
/// indices.
pub proof fn lemma_crossed_keeps_scores(
    before: Seq<Genome>,
    after: Seq<Genome>,
    order: Seq<usize>,
    rate: int,
    draws: Seq<CrossoverDraw>,
    r: nat,
)
    requires
        is_rank_order(before, order),
        r <= order.len(),
        crossed(before, after, order, rate, draws, r),
    ensures
        same_scores(after, before),
    decreases r,
{
    if r > 0 {
        let mid = choose|mid: Seq<Genome>|
            {
                &&& crossed(before, mid, order, rate, draws, (r - 1) as nat)
                &&& #[trigger] slot_crossed(mid, after, order, rate, draws[r - 1], r - 1)
            };
        lemma_crossed_keeps_scores(before, mid, order, rate, draws, (r - 1) as nat);
        assert(order[r - 1] < before.len());
        assert forall|i: int| 0 <= i < after.len() implies (#[trigger] after[i]).fitness
            == before[i].fitness && after[i].id == before[i].id by {
            assert(mid[i].fitness == before[i].fitness);
        }
    }
}

/// Recombination leaves a slot alone unless one of the draws that it goes
/// by decides to recombine that very slot.
pub proof fn lemma_crossed_keeps_slot(
    before: Seq<Genome>,
    after: Seq<Genome>,
    order: Seq<usize>,
    rate: int,
    draws: Seq<CrossoverDraw>,
    r: nat,
    slot: int,
)
    requires
        crossed(before, after, order, rate, draws, r),
        forall|j: int| 0 <= j < r && draws[j].decision < rate ==> #[trigger] order[j] != slot,
        0 <= slot < before.len(),
    ensures
        after.len() == before.len(),
        after[slot] == before[slot],
    decreases r,
{
    if r > 0 {
        let mid = choose|mid: Seq<Genome>|
            {
                &&& crossed(before, mid, order, rate, draws, (r - 1) as nat)
                &&& #[trigger] slot_crossed(mid, after, order, rate, draws[r - 1], r - 1)
            };
        lemma_crossed_keeps_slot(before, mid, order, rate, draws, (r - 1) as nat, slot);
        if draws[r - 1].decision < rate {
            assert(order[r - 1] != slot);
        }
    }
}

/// Recombination of a ranked population leaves the first candidate alone
/// where the draw of the best rank decides against recombination, and
/// never changes a score.
pub proof fn lemma_unrecombined_best_stays(
    opened: Population,
    recombined: Population,
    draws: Seq<CrossoverDraw>,
)
    requires
        opened.elite_size <= UNIT,
        ranked(opened.individual_list@),
        draws.len() == opened.elite_count_spec(),
        recombined.is_crossover_of(opened, draws),
        opened.elite_count_spec() >= 1,
        draws[0].decision >= opened.crossover_rate_now(),
    ensures
        same_scores(recombined.individual_list@, opened.individual_list@),
        recombined.individual_list@[0] == opened.individual_list@[0],
{
    let first = opened.individual_list@;
    let second = recombined.individual_list@;
    let rate = opened.crossover_rate_now();
    let slots = opened.crossed_slots(draws.len());
    let order = choose|order: Seq<usize>|
        is_rank_order(first, order) && #[trigger] crossed(first, second, order, rate, draws, slots);
    lemma_elite_count_bound(first.len(), opened.elite_size);
    lemma_rank_order_bounds_length(first, order);
    lemma_ranked_list_is_its_own_ranking(first);
    let same = choose|same: Seq<usize>|
        is_rank_order(first, same) && (forall|j: int| 0 <= j < same.len() ==> same[j] == j);
    lemma_rank_order_unique(first, order, same);
    assert forall|j: int| 0 <= j < slots && draws[j].decision < rate implies #[trigger] order[j]
        != 0 by {
        assert(same[j] == j);
    }
    lemma_crossed_keeps_slot(first, second, order, rate, draws, slots, 0);
    lemma_crossed_keeps_scores(first, second, order, rate, draws, slots);
}

/// The elite fraction of a population is no more than the population.
pub proof fn lemma_elite_count_bound(size: nat, elite_size: u64)
    requires
        elite_size <= UNIT,
    ensures
        size * elite_size / (UNIT as int) <= size,
        size * elite_size / (UNIT as int) >= 1 ==> size >= 1,
{
    assert(size * elite_size / (UNIT as int) <= size) by (nonlinear_arith)
        requires
            0 <= elite_size <= UNIT,
            UNIT > 0,
            size >= 0,
    ;
}

/// Mutation leaves the elite slots alone and never changes a score.
pub proof fn lemma_mutation_spares_the_elite(
    recombined: Population,
    mutated: Population,
    draws: Seq<MutationDraw>,
)
    requires
        mutated.is_mutation_of(recombined, draws),
    ensures
        same_scores(mutated.individual_list@, recombined.individual_list@),
        forall|i: int|
            0 <= i < recombined.elite_count_spec() && i < recombined.individual_list@.len()
                ==> #[trigger] mutated.individual_list@[i] == recombined.individual_list@[i],
{
    let second = recombined.individual_list@;
    let third = mutated.individual_list@;
    assert forall|i: int| 0 <= i < third.len() implies (#[trigger] third[i]).fitness
        == second[i].fitness && third[i].id == second[i].id by {
        assert(recombined.slot_mutated(i, third[i], draws));
    }
    assert forall|i: int|
        0 <= i < recombined.elite_count_spec() && i < second.len() implies #[trigger] third[i]
        == second[i] by {
        assert(recombined.slot_mutated(i, third[i], draws));
    }
}

/// Lists with the same scores are ranked together.
pub proof fn lemma_same_scores_stay_ranked(first: Seq<Genome>, second: Seq<Genome>)
    requires
        same_scores(second, first),
        ranked(first),
    ensures
        ranked(second),
{
    assert forall|i: int, j: int| 0 <= i < j < second.len() implies (#[trigger] second[i])
        .fitness.no_worse_than((#[trigger] second[j]).fitness) by {
        assert(first[i].fitness.no_worse_than(first[j].fitness));
    }
}

/// Elitism: the incumbent survives a generation unless recombination
/// overwrites it.  Where the population has an elite slot and the draw of
/// the best rank decides against recombination, the best candidate of the
/// evaluated population stands first at the end of the generation, with
/// the genes, the score and the index that it had.
pub proof fn lemma_incumbent_survives(
    before: Population,
    after: Population,
    opened: Population,
    recombined: Population,
    mutated: Population,
    closed: Population,
    crossover_draws: Seq<CrossoverDraw>,
    mutation_draws: Seq<MutationDraw>,
)
    requires
        before.wf(),
        after.is_generation_of(
            before,
            opened,
            recombined,
            mutated,
            closed,
            crossover_draws,
            mutation_draws,
        ),
        opened.elite_count_spec() >= 1,
        crossover_draws[0].decision >= opened.crossover_rate_now(),
    ensures
        after.individual_list@.len() == before.individual_list@.len(),
        after.individual_list@.len() > 0,
        after.individual_list@[0] == opened.individual_list@[0],
        is_best_of(after.individual_list@[0].fitness, before.individual_list@),
{
    let first = opened.individual_list@;
    let second = recombined.individual_list@;
    let third = mutated.individual_list@;
    let fourth = closed.individual_list@;
    let start = choose|order: Seq<usize>|
        is_rank_order(before.individual_list@, order) && first == arranged(
            before.individual_list@,
            order,
        );
    lemma_arranged_is_ranked(before.individual_list@, start);
    lemma_elite_count_bound(first.len(), opened.elite_size);
    lemma_unrecombined_best_stays(opened, recombined, crossover_draws);
    lemma_mutation_spares_the_elite(recombined, mutated, mutation_draws);
    assert(third[0] == second[0]);
    // Scores are as they were, so the closing ranking moves nothing.
    lemma_same_scores_stay_ranked(first, second);
    lemma_same_scores_stay_ranked(second, third);
    lemma_rank_order_bounds_length(before.individual_list@, start);
    lemma_ranked_list_is_its_own_ranking(third);
    lemma_ranking_unique(third, fourth, third);
    // The first candidate of a ranking is the best of the list ranked.
    assert(is_best_of(first[0].fitness, first)) by {
        assert forall|i: int| 0 <= i < first.len() implies first[0].fitness.no_worse_than(
            #[trigger] first[i].fitness,
        ) by {
            if i > 0 {
                assert(first[0].fitness.no_worse_than(first[i].fitness));
            }
        }
    }
    lemma_best_of_ranking(first[0].fitness, first, before.individual_list@);
}

impl Population {
    /// The rates and the elite fraction are at most one, every lower bound
    /// lies below its upper bound, and the run has a last generation that
    /// is not yet past.
    pub open spec fn config_valid(self) -> bool {
        &&& self.crossover_rate <= UNIT
        &&& self.mutation_rate <= UNIT
        &&& self.elite_size <= UNIT
        &&& forall|g: int|
            0 <= g < GENE_COUNT ==> #[trigger] self.parameter_bounds_lower@[g]
                < self.parameter_bounds_upper@[g]
        &&& self.maximum_generation > 0
        &&& self.current_generation <= self.maximum_generation
    }

    /// Every gene of every candidate lies within its bounds.
    pub open spec fn genes_bounded(self) -> bool {
        forall|i: int|
            0 <= i < self.individual_list@.len() ==> (#[trigger] self.individual_list@[i]).within(
                self.parameter_bounds_lower@,
                self.parameter_bounds_upper@,
            )
    }

    /// The population is usable: valid knobs and bounds, every gene within
    /// its bounds.
    pub open spec fn wf(self) -> bool {
        self.config_valid() && self.genes_bounded()
    }

    /// The number of elite slots: the elite fraction of the population
    /// size, rounded down.
    pub open spec fn elite_count_spec(self) -> nat {
        (self.individual_list@.len() * self.elite_size / (UNIT as int)) as nat
    }

    /// The crossover rate of the present generation.
    pub open spec fn crossover_rate_now(self) -> int {
        adaptive_crossover_rate(
            self.crossover_rate,
            self.current_generation,
            self.maximum_generation,
        )
    }

    /// The mutation rate of the present generation.
    pub open spec fn mutation_rate_now(self) -> int {
        adaptive_mutation_rate(self.mutation_rate, self.current_generation, self.maximum_generation)
    }

    /// The number of elite slots that `available` draws reach.
    pub open spec fn crossed_slots(self, available: nat) -> nat {
        if available < self.elite_count_spec() {
            available
        } else {
            self.elite_count_spec()
        }
    }

    /// `child` is what mutation under `draws` leaves in slot `i`: the
    /// candidate as it was, in the elite slots, without a finite best
    /// score, without a draw for the slot and where the decision does not
    /// lie below the rate; the candidate mutated under its noise draws
    /// otherwise.
    pub open spec fn slot_mutated(self, i: int, child: Genome, draws: Seq<MutationDraw>) -> bool {
        let parent = self.individual_list@[i];
        let k = i - self.elite_count_spec();
        if self.best_fitness is Finite && 0 <= k < draws.len() && draws[k].decision
            < self.mutation_rate_now() {
            is_mutation(
                child,
                parent,
                self.parameter_bounds_lower@,
                self.parameter_bounds_upper@,
                effective_intensity(
                    self.mutation_intensity,
                    parent.fitness,
                    self.best_fitness->Finite_0,
                ),
                draws[k].noise@,
            )
        } else {
            child == parent
        }
    }

    /// `self` is `before` with its candidates ranked: the candidates stand
    /// best rank first, the best score is the better of the one recorded
    /// before and the first candidate's, worst and average are those of the
    /// candidates, and nothing else differs.
    pub open spec fn is_ranked_from(self, before: Population) -> bool {
        let list = self.individual_list@;
        &&& is_ranking_of(list, before.individual_list@)
        &&& self.best_fitness == if list.len() > 0 {
            before.best_fitness.better_of(list[0].fitness)
        } else {
            before.best_fitness
        }
        &&& is_worst_of(self.worst_fitness, list)
        &&& self.average_fitness == average_of(list)
        &&& self == (Population {
            individual_list: self.individual_list,
            best_fitness: self.best_fitness,
            worst_fitness: self.worst_fitness,
            average_fitness: self.average_fitness,
            ..before
        })
    }

    /// `self` is `before` with its scores brought up to date: the best score
    /// is the better of the one recorded before and the best of the
    /// candidates, worst and average are those of the candidates.
    pub open spec fn is_scored_from(self, before: Population) -> bool {
        &&& is_best_with(self.best_fitness, before.best_fitness, before.individual_list@)
        &&& is_worst_of(self.worst_fitness, before.individual_list@)
        &&& self.average_fitness == average_of(before.individual_list@)
        &&& self == (Population {
            best_fitness: self.best_fitness,
            worst_fitness: self.worst_fitness,
            average_fitness: self.average_fitness,
            ..before
        })
    }

    /// `self` is `before` recombined under `draws`: the elite slots that
    /// the draws reach have gone by them, best rank first, and nothing but
    /// the candidates differs.
    pub open spec fn is_crossover_of(self, before: Population, draws: Seq<CrossoverDraw>) -> bool {
        &&& self == (Population { individual_list: self.individual_list, ..before })
        &&& exists|order: Seq<usize>|
            {
                &&& is_rank_order(before.individual_list@, order)
                &&& #[trigger] crossed(
                    before.individual_list@,
                    self.individual_list@,
                    order,
                    before.crossover_rate_now(),
                    draws,
                    before.crossed_slots(draws.len()),
                )
            }
    }

    /// `self` is `before` mutated under `draws`, and nothing but the
    /// candidates differs.
    pub open spec fn is_mutation_of(self, before: Population, draws: Seq<MutationDraw>) -> bool {
        &&& self == (Population { individual_list: self.individual_list, ..before })
        &&& before.mutated_by(self.individual_list@, draws)
    }

    /// `self` is `before` one generation later, by way of the populations
    /// `opened` (ranked), `recombined` (under one draw per elite slot),
    /// `mutated` (under one draw per other candidate) and `closed` (ranked
    /// again): the generation counter has advanced, and
    /// best, worst and average are those of the candidates.
    pub open spec fn is_generation_of(
        self,
        before: Population,
        opened: Population,
        recombined: Population,
        mutated: Population,
        closed: Population,
        crossover_draws: Seq<CrossoverDraw>,
        mutation_draws: Seq<MutationDraw>,
    ) -> bool {
        &&& opened.is_ranked_from(before)
        &&& crossover_draws.len() == opened.elite_count_spec()
        &&& recombined.is_crossover_of(opened, crossover_draws)
        &&& mutation_draws.len() == recombined.individual_list@.len()
            - recombined.elite_count_spec()
        &&& forall|r: int|
            0 <= r < crossover_draws.len() ==> (#[trigger] crossover_draws[r]).drawn_for(
                opened.individual_list@.len(),
            )
        &&& forall|k: int| 0 <= k < mutation_draws.len() ==> (#[trigger] mutation_draws[k]).drawn()
        &&& mutated.is_mutation_of(recombined, mutation_draws)
        &&& closed.is_ranked_from(mutated)
        &&& self.is_scored_from(
            Population {
                current_generation: (before.current_generation + 1) as u64,
                ..closed
            },
        )
    }

    /// `after` is what mutation under `draws` leaves of the population.
    pub open spec fn mutated_by(self, after: Seq<Genome>, draws: Seq<MutationDraw>) -> bool {
        &&& after.len() == self.individual_list@.len()
        &&& forall|i: int| 0 <= i < after.len() ==> self.slot_mutated(i, #[trigger] after[i], draws)
    }

    /// Checks the knobs, bounds and generation counters.
    pub fn is_config_valid(&self) -> (ok: bool)
        ensures
            ok == self.config_valid(),
    {
        if self.crossover_rate > UNIT || self.mutation_rate > UNIT
            || self.elite_size > UNIT || self.maximum_generation == 0 || self.current_generation
            > self.maximum_generation {
            return false;
        }
        let mut g: usize = 0;
        while g < GENE_COUNT
            invariant
                g <= GENE_COUNT,
                forall|k: int|
                    0 <= k < g ==> #[trigger] self.parameter_bounds_lower@[k]
                        < self.parameter_bounds_upper@[k],
            decreases GENE_COUNT - g,
        {
            if self.parameter_bounds_lower[g] >= self.parameter_bounds_upper[g] {
                return false;
            }
            g += 1;
        }
        true
    }

    /// Checks that the population is usable: valid knobs and bounds, every
    /// gene within its bounds.
    pub fn is_well_formed(&self) -> (ok: bool)
        ensures
            ok == self.wf(),
    {
        if !self.is_config_valid() {
            return false;
        }
        let n = self.individual_list.len();
        let mut i: usize = 0;
        while i < n
            invariant
                n == self.individual_list@.len(),
                i <= n,
                forall|k: int|
                    0 <= k < i ==> (#[trigger] self.individual_list@[k]).within(
                        self.parameter_bounds_lower@,
                        self.parameter_bounds_upper@,
                    ),
            decreases n - i,
        {
            let mut g: usize = 0;
            while g < GENE_COUNT
                invariant
                    i < n,
                    n == self.individual_list@.len(),
                    g <= GENE_COUNT,
                    forall|k: int|
                        0 <= k < g ==> self.parameter_bounds_lower@[k]
                            <= #[trigger] self.individual_list@[i as int].genes@[k]
                            <= self.parameter_bounds_upper@[k],
                decreases GENE_COUNT - g,
            {
                let gene = self.individual_list[i].genes[g];
                if gene < self.parameter_bounds_lower[g] || gene > self.parameter_bounds_upper[g] {
                    assert(!self.individual_list@[i as int].within(
                        self.parameter_bounds_lower@,
                        self.parameter_bounds_upper@,
                    ));
                    return false;
                }
                g += 1;
            }
            i += 1;
        }
        true
    }

    /// The number of elite slots.
    pub fn elite_count(&self) -> (count: usize)
        requires
            self.elite_size <= UNIT,
        ensures
            count == self.elite_count_spec(),
            count <= self.individual_list@.len(),
    {
        let n = self.individual_list.len();
        assert(n * self.elite_size <= n * UNIT) by (nonlinear_arith)
            requires
                self.elite_size <= UNIT,
                n >= 0,
        ;
        assert(n * UNIT <= 0xffff_ffff_ffff_ffff * 0x1_0000_0000) by (nonlinear_arith)
            requires
                n <= 0xffff_ffff_ffff_ffff,
                UNIT <= 0x1_0000_0000,
        ;
        let product: u128 = (n as u128) * (self.elite_size as u128);
        let count: u128 = product / (UNIT as u128);
        assert(count <= n) by (nonlinear_arith)
            requires
                count == product / (UNIT as u128),
                product <= n * UNIT,
                UNIT > 0,
        ;
        count as usize
    }

    /// The rates of the present generation: mutation first, crossover
    /// second.  Both depend on the generation counters and the nominal
    /// rates alone.
    pub fn get_adaptive_rates(&self) -> (rates: (u64, u64))
        requires
            self.config_valid(),
        ensures
            rates.0 == adaptive_mutation_rate(
                self.mutation_rate,
                self.current_generation,
                self.maximum_generation,
            ),
            rates.1 == adaptive_crossover_rate(
                self.crossover_rate,
                self.current_generation,
                self.maximum_generation,
            ),
            rates.0 <= self.mutation_rate,
            rates.1 <= self.crossover_rate,
    {
        let maximum: u128 = self.maximum_generation as u128;
        let generation: u128 = self.current_generation as u128;
        let mutation_span: u128 = 10 * maximum - 9 * generation;
        let crossover_span: u128 = maximum + generation;
        let m: u128 = self.mutation_rate as u128;
        let c: u128 = self.crossover_rate as u128;
        assert(m * mutation_span <= m * (10 * maximum) <= 0x1_0000_0000 * (10 * maximum))
            by (nonlinear_arith)
            requires
                mutation_span <= 10 * maximum,
                m <= 0x1_0000_0000,
        ;
        assert(c * crossover_span <= c * (2 * maximum) <= 0x1_0000_0000 * (2 * maximum))
            by (nonlinear_arith)
            requires
                crossover_span <= 2 * maximum,
                c <= 0x1_0000_0000,
        ;
        let mutation: u128 = m * mutation_span / (10 * maximum);
        let crossover: u128 = c * crossover_span / (2 * maximum);
        assert(mutation <= m) by (nonlinear_arith)
            requires
                mutation == m * mutation_span / (10 * maximum),
                m * mutation_span <= m * (10 * maximum),
                maximum > 0,
        ;
        assert(crossover <= c) by (nonlinear_arith)
            requires
                crossover == c * crossover_span / (2 * maximum),
                c * crossover_span <= c * (2 * maximum),
                maximum > 0,
        ;
        (mutation as u64, crossover as u64)
    }

    /// Recomputes the worst and the average score.
    ///
    /// The worst score is the largest finite one.  The average adds up the
    /// finite scores only and divides by the number of all candidates.
    pub fn update_population_stats(&mut self)
        ensures
            is_worst_of(final(self).worst_fitness, old(self).individual_list@),
            final(self).average_fitness == average_of(old(self).individual_list@),
            *final(self) == (Population {
                worst_fitness: final(self).worst_fitness,
                average_fitness: final(self).average_fitness,
                ..*old(self)
            }),
    {
        let n = self.individual_list.len();
        let size: u128 = n as u128;
        // The finite scores add up to `size * whole + rest`.
        let mut whole: u128 = 0;
        let mut rest: u128 = 0;
        let mut worst: Fitness = Fitness::NonFinite;
        let mut i: usize = 0;
        while i < n
            invariant
                n == self.individual_list@.len(),
                size == n,
                i <= n,
                *self == *old(self),
                size * whole + rest == finite_total(self.individual_list@, i as nat),
                rest <= i * (size - 1),
                size * whole <= i * u128::MAX,
                is_worst_of(worst, self.individual_list@.take(i as int)),
            decreases n - i,
        {
            let ghost before = self.individual_list@.take(i as int);
            let ghost after = self.individual_list@.take(i + 1);
            match self.individual_list[i].fitness {
                Fitness::Finite(v) => {
                    let share: u128 = v / size;
                    let left: u128 = v % size;
                    proof {
                        lemma_fundamental_div_mod(v as int, size as int);
                        assert(size * (whole + share) == size * whole + size * share)
                            by (nonlinear_arith);
                        assert(whole + share <= u128::MAX) by (nonlinear_arith)
                            requires
                                size * (whole + share) <= (i + 1) * u128::MAX,
                                i + 1 <= size,
                                size >= 1,
                        ;
                        assert((i + 1) * (size - 1) <= u128::MAX) by (nonlinear_arith)
                            requires
                                0 <= i + 1 <= size,
                                1 <= size <= 0x1_0000_0000_0000_0000,
                        ;
                        assert(i * (size - 1) + (size - 1) == (i + 1) * (size - 1))
                            by (nonlinear_arith);
                        assert(i * u128::MAX + u128::MAX == (i + 1) * u128::MAX)
                            by (nonlinear_arith);
                    }
                    whole = whole + share;
                    rest = rest + left;
                    match worst {
                        Fitness::Finite(w) => {
                            if v > w {
                                worst = Fitness::Finite(v);
                            }
                        },
                        Fitness::NonFinite => {
                            worst = Fitness::Finite(v);
                        },
                    }
                },
                Fitness::NonFinite => {
                    proof {
                        assert(i * (size - 1) <= (i + 1) * (size - 1)) by (nonlinear_arith)
                            requires
                                size >= 1,
                                i >= 0,
                        ;
                    }
                },
            }
            proof {
                assert(forall|k: int| 0 <= k < i ==> after[k] == before[k]);
                assert(after[i as int] == self.individual_list@[i as int]);
                if worst is Finite {
                    if worst == self.individual_list@[i as int].fitness {
                        assert(after[i as int].fitness == worst);
                    } else {
                        let k = choose|k: int|
                            0 <= k < before.len() && #[trigger] before[k].fitness == worst;
                        assert(after[k].fitness == worst);
                    }
                }
            }
            i += 1;
        }
        proof {
            assert(self.individual_list@.take(n as int) =~= self.individual_list@);
        }
        self.worst_fitness = worst;
        if n == 0 {
            self.average_fitness = Fitness::NonFinite;
        } else {
            proof {
                let total = finite_total(self.individual_list@, n as nat) as int;
                lemma_hoist_over_denominator(rest as int, whole as int, size as nat);
                assert(rest + whole * size == total) by (nonlinear_arith)
                    requires
                        size * whole + rest == total,
                ;
                lemma_finite_total_bound(self.individual_list@, n as nat);
                lemma_div_is_ordered(total, n * u128::MAX, size as int);
                assert((n * u128::MAX) / (size as int) == u128::MAX) by (nonlinear_arith)
                    requires
                        size == n,
                        n >= 1,
                ;
            }
            let average: u128 = whole + rest / size;
            self.average_fitness = Fitness::Finite(average);
        }
    }

    /// Finds the best candidate, records its score as the best score where
    /// it beats the one recorded before, and recomputes worst and average.
    ///
    /// Returns the index of the first candidate with the best finite score,
    /// or zero where no score is finite.  The recorded best score never
    /// gets worse: it stays as it is where no candidate beats it.
    pub fn best_fitness_calc(&mut self) -> (best_individual: usize)
        ensures
            is_best_index(old(self).individual_list@, best_individual as int),
            final(self).is_scored_from(*old(self)),
            final(self).best_fitness.no_worse_than(old(self).best_fitness),
    {
        let n = self.individual_list.len();
        let mut best: Fitness = Fitness::NonFinite;
        let mut best_individual: usize = 0;
        let mut index: usize = 0;
        while index < n
            invariant
                n == self.individual_list@.len(),
                index <= n,
                *self == *old(self),
                forall|j: int|
                    0 <= j < index ==> best.no_worse_than(
                        (#[trigger] self.individual_list@[j]).fitness,
                    ),
                best is Finite ==> {
                    &&& best_individual < index
                    &&& self.individual_list@[best_individual as int].fitness == best
                    &&& forall|j: int|
                        0 <= j < best_individual ==> (#[trigger] self.individual_list@[j]).fitness
                            != best
                },
                best is NonFinite ==> best_individual == 0,
            decreases n - index,
        {
            let candidate = self.individual_list[index].fitness;
            if candidate.beats(best) {
                best = candidate;
                best_individual = index;
            }
            index += 1;
        }
        proof {
            let list = self.individual_list@;
            assert(is_best_of(best, list));
            lemma_best_with(self.best_fitness, best, list);
            if best is NonFinite {
                assert forall|i: int| 0 <= i < list.len() implies (#[trigger] list[i]).fitness
                    is NonFinite by {
                    assert(best.no_worse_than(list[i].fitness));
                }
            } else {
                assert(list[best_individual as int].fitness is Finite);
            }
        }
        self.best_fitness = self.best_fitness.better(best);
        self.update_population_stats();
        best_individual
    }

    /// Ranks the population and records the best score.
    ///
    /// Afterwards the candidates stand best first: finite scores ascending,
    /// every non-finite score after all finite ones, equal scores in their
    /// earlier order.  The elite slots are thus the first ones.  The best
    /// score seen is recorded: the first candidate's where it beats the one
    /// recorded before, which otherwise stays.  Worst and average are
    /// recomputed.
    pub fn preserve_best_solutions(&mut self)
        ensures
            final(self).is_ranked_from(*old(self)),
            final(self).best_fitness.no_worse_than(old(self).best_fitness),
            ranked(final(self).individual_list@),
            forall|i: int, j: int|
                0 <= i < final(self).individual_list@.len()
                    && 0 <= j < final(self).individual_list@.len()
                    && (#[trigger] final(self).individual_list@[i]).fitness is NonFinite
                    && (#[trigger] final(self).individual_list@[j]).fitness is Finite ==> j < i,
            old(self).wf() ==> final(self).wf(),
    {
        let n = self.individual_list.len();
        let order = rank_order(&self.individual_list);
        let mut new_population: Vec<Genome> = Vec::with_capacity(n);
        let mut j: usize = 0;
        while j < n
            invariant
                n == self.individual_list@.len(),
                *self == *old(self),
                is_rank_order(self.individual_list@, order@),
                j <= n,
                new_population@.len() == j,
                forall|k: int|
                    0 <= k < j ==> #[trigger] new_population@[k]
                        == self.individual_list@[order@[k] as int],
            decreases n - j,
        {
            new_population.push(self.individual_list[order[j]]);
            j += 1;
        }
        proof {
            assert(new_population@ =~= arranged(self.individual_list@, order@));
            lemma_arranged_is_ranked(self.individual_list@, order@);
            assert forall|i: int, j: int|
                0 <= i < new_population@.len() && 0 <= j < new_population@.len() && (
                #[trigger] new_population@[i]).fitness is NonFinite && (
                #[trigger] new_population@[j]).fitness is Finite implies j < i by {
                lemma_non_finite_rank_last(new_population@, i, j);
            }
            if old(self).wf() {
                assert forall|i: int| 0 <= i < new_population@.len() implies (
                #[trigger] new_population@[i]).within(
                    self.parameter_bounds_lower@,
                    self.parameter_bounds_upper@,
                ) by {
                    assert(self.individual_list@[order@[i] as int].within(
                        self.parameter_bounds_lower@,
                        self.parameter_bounds_upper@,
                    ));
                }
            }
        }
        if n > 0 {
            self.best_fitness = self.best_fitness.better(new_population[0].fitness);
        }
        self.individual_list = new_population;
        self.update_population_stats();
    }

    /// A new candidate: every gene drawn evenly from its bounds, the upper
    /// one excluded; no score yet; index zero.
    pub fn random_population(&self) -> (individual: Genome)
        requires
            forall|g: int|
                0 <= g < GENE_COUNT ==> #[trigger] self.parameter_bounds_lower@[g]
                    < self.parameter_bounds_upper@[g],
        ensures
            is_fresh(individual, 0, self.parameter_bounds_lower@, self.parameter_bounds_upper@),
    {
        let mut genes: [i64; 10] = [0i64; 10];
        let mut index: usize = 0;
        while index < GENE_COUNT
            invariant
                index <= GENE_COUNT,
                forall|g: int|
                    0 <= g < GENE_COUNT ==> #[trigger] self.parameter_bounds_lower@[g]
                        < self.parameter_bounds_upper@[g],
                forall|g: int|
                    0 <= g < index ==> self.parameter_bounds_lower@[g] <= #[trigger] genes@[g]
                        < self.parameter_bounds_upper@[g],
            decreases GENE_COUNT - index,
        {
            assert(self.parameter_bounds_lower@[index as int]
                < self.parameter_bounds_upper@[index as int]);
            genes[index] = random_gene(
                self.parameter_bounds_lower[index],
                self.parameter_bounds_upper[index],
            );
            index += 1;
        }
        Genome { genes, fitness: Fitness::NonFinite, id: 0 }
    }

    /// Fills the population with `pop_size` new candidates, indexed in the
    /// order of their creation.
    ///
    /// Fails with `InvalidConfig`, and changes nothing, where a rate or the
    /// elite fraction exceeds one, a lower bound does not lie below its
    /// upper bound, no generation is left to run, or `pop_size` is zero or
    /// beyond what a list can hold.
    pub fn generate_pop(&mut self, pop_size: u64) -> (r: Result<(), CalibrationError>)
        ensures
            r is Ok <==> old(self).config_valid() && 0 < pop_size <= usize::MAX,
            r is Err ==> r == Err::<(), CalibrationError>(CalibrationError::InvalidConfig)
                && *final(self) == *old(self),
            r is Ok ==> {
                &&& final(self).individual_list@.len() == pop_size
                &&& forall|i: int|
                    0 <= i < pop_size ==> is_fresh(
                        #[trigger] final(self).individual_list@[i],
                        i,
                        old(self).parameter_bounds_lower@,
                        old(self).parameter_bounds_upper@,
                    )
                &&& *final(self) == (Population {
                    individual_list: final(self).individual_list,
                    ..*old(self)
                })
                &&& final(self).wf()
            },
    {
        if !self.is_config_valid() || pop_size == 0 || pop_size > usize::MAX as u64 {
            return Err(CalibrationError::InvalidConfig);
        }
        let size: usize = pop_size as usize;
        let mut list: Vec<Genome> = Vec::with_capacity(size);
        let mut identifier: u64 = 0;
        while identifier < pop_size
            invariant
                *self == *old(self),
                self.config_valid(),
                identifier <= pop_size,
                list@.len() == identifier,
                forall|i: int|
                    0 <= i < identifier ==> is_fresh(
                        #[trigger] list@[i],
                        i,
                        self.parameter_bounds_lower@,
                        self.parameter_bounds_upper@,
                    ),
            decreases pop_size - identifier,
        {
            let mut individual = self.random_population();
            individual.id = identifier;
            list.push(individual);
            identifier += 1;
        }
        self.individual_list = list;
        proof {
            assert forall|i: int| 0 <= i < self.individual_list@.len() implies (
            #[trigger] self.individual_list@[i]).within(
                self.parameter_bounds_lower@,
                self.parameter_bounds_upper@,
            ) by {
                assert(is_fresh(
                    self.individual_list@[i],
                    i,
                    self.parameter_bounds_lower@,
                    self.parameter_bounds_upper@,
                ));
            }
        }
        Ok(())
    }

    /// The slots of the elite: the indices of the best-ranked candidates,
    /// best first, as many as the elite fraction allows.
    pub fn get_elite_indices(&self) -> (elite: Vec<usize>)
        requires
            self.elite_size <= UNIT,
        ensures
            exists|order: Seq<usize>|
                is_rank_order(self.individual_list@, order) && elite@ == order.subrange(
                    0,
                    self.elite_count_spec() as int,
                ),
    {
        let count = self.elite_count();
        let mut order = rank_order(&self.individual_list);
        order.truncate(count);
        order
    }

    /// Recombination under given draws.
    ///
    /// The elite slots are taken best rank first; the slot of rank `r` goes
    /// by `draws[r]`, and is left alone where `draws` has no such entry.  A
    /// decision below the crossover rate of the generation lets the slot
    /// take genes from a donor: the donor is the candidate whose rank the
    /// rank draw selects, rank `r` weighing `1 / (1 + r)`, and each gene of
    /// the slot is replaced by the donor's where its coin falls below one
    /// half.  Scores and indices are not touched, no slot outside the elite
    /// is written, and every gene afterwards is a gene that some candidate
    /// had at that position before.
    pub fn population_crossover_with(&mut self, draws: &[CrossoverDraw])
        requires
            old(self).wf(),
        ensures
            final(self).wf(),
            final(self).is_crossover_of(*old(self), draws@),
            same_scores(final(self).individual_list@, old(self).individual_list@),
            forall|i: int, g: int|
                0 <= i < final(self).individual_list@.len() && 0 <= g < GENE_COUNT
                    ==> gene_in_pool(
                    old(self).individual_list@,
                    g,
                    #[trigger] final(self).individual_list@[i].genes@[g],
                ),
            forall|slot: int|
                0 <= slot < old(self).individual_list@.len() && !is_elite_slot(
                    old(self).individual_list@,
                    old(self).crossed_slots(draws@.len()),
                    slot,
                ) ==> #[trigger] final(self).individual_list@[slot]
                    == old(self).individual_list@[slot],
    {
        let n = self.individual_list.len();
        let order = rank_order(&self.individual_list);
        let elite = self.elite_count();
        let count = if draws.len() < elite {
            draws.len()
        } else {
            elite
        };
        let (_, rate) = self.get_adaptive_rates();
        let weights = rank_weights(n);
        let ghost before = self.individual_list@;
        proof {
            assert forall|i: int, g: int| 0 <= i < n && 0 <= g < GENE_COUNT implies gene_in_pool(
                before,
                g,
                #[trigger] before[i].genes@[g],
            ) by {}
        }
        let mut r: usize = 0;
        while r < count
            invariant
                n == before.len(),
                n == self.individual_list@.len(),
                before == old(self).individual_list@,
                count <= n,
                count <= draws@.len(),
                count == old(self).crossed_slots(draws@.len()),
                rate == old(self).crossover_rate_now(),
                r <= count,
                weights@ == weights_of(n as nat),
                is_rank_order(before, order@),
                *self == (Population { individual_list: self.individual_list, ..*old(self) }),
                self.wf(),
                same_scores(self.individual_list@, before),
                crossed(before, self.individual_list@, order@, rate as int, draws@, r as nat),
                forall|i: int, g: int|
                    0 <= i < n && 0 <= g < GENE_COUNT ==> gene_in_pool(
                        before,
                        g,
                        #[trigger] self.individual_list@[i].genes@[g],
                    ),
                forall|k: int|
                    r <= k < n ==> self.individual_list@[#[trigger] order@[k] as int]
                        == before[order@[k] as int],
            decreases count - r,
        {
            let slot = order[r];
            let draw = draws[r];
            let ghost earlier = self.individual_list@;
            if draw.decision < rate {
                let rank = rank_for_draw(weights.as_slice(), draw.rank_draw);
                let donor = order[rank];
                let ghost target = self.individual_list@[slot as int];
                let ghost source = self.individual_list@[donor as int];
                let child = blend(
                    &self.individual_list[slot],
                    &self.individual_list[donor],
                    &draw.coins,
                );
                self.individual_list[slot] = child;
                proof {
                    assert(target.within(
                        self.parameter_bounds_lower@,
                        self.parameter_bounds_upper@,
                    ));
                    assert(source.within(
                        self.parameter_bounds_lower@,
                        self.parameter_bounds_upper@,
                    ));
                    assert forall|g: int| 0 <= g < GENE_COUNT implies gene_in_pool(
                        before,
                        g,
                        #[trigger] child.genes@[g],
                    ) && self.parameter_bounds_lower@[g] <= child.genes@[g]
                        <= self.parameter_bounds_upper@[g] by {
                        assert(gene_in_pool(before, g, earlier[slot as int].genes@[g]));
                        assert(gene_in_pool(before, g, earlier[donor as int].genes@[g]));
                        assert(self.parameter_bounds_lower@[g] <= target.genes@[g]
                            <= self.parameter_bounds_upper@[g]);
                        assert(self.parameter_bounds_lower@[g] <= source.genes@[g]
                            <= self.parameter_bounds_upper@[g]);
                    }
                    assert forall|i: int|
                        0 <= i < self.individual_list@.len() implies (
                    #[trigger] self.individual_list@[i]).within(
                        self.parameter_bounds_lower@,
                        self.parameter_bounds_upper@,
                    ) by {
                        if i != slot {
                            assert(self.individual_list@[i] == earlier[i]);
                            assert(earlier[i].within(
                                self.parameter_bounds_lower@,
                                self.parameter_bounds_upper@,
                            ));
                        }
                    }
                    assert forall|i: int, g: int|
                        0 <= i < n && 0 <= g < GENE_COUNT implies gene_in_pool(
                        before,
                        g,
                        #[trigger] self.individual_list@[i].genes@[g],
                    ) by {
                        if i != slot {
                            assert(self.individual_list@[i] == earlier[i]);
                            assert(gene_in_pool(before, g, earlier[i].genes@[g]));
                        }
                    }
                    assert forall|k: int| r < k < n implies self.individual_list@[
                    #[trigger] order@[k] as int] == before[order@[k] as int] by {
                        assert(order@[r as int] != order@[k]);
                    }
                    assert(slot_blended(
                        earlier,
                        self.individual_list@,
                        slot as int,
                        order@[rank as int] as int,
                        draw.coins@,
                    ));
                }
            }
            proof {
                assert(slot_crossed(
                    earlier,
                    self.individual_list@,
                    order@,
                    rate as int,
                    draws@[r as int],
                    r as int,
                ));
                lemma_crossed_extends(
                    before,
                    earlier,
                    self.individual_list@,
                    order@,
                    rate as int,
                    draws@,
                    r as nat,
                );
            }
            r += 1;
        }
        proof {
            assert forall|slot: int|
                0 <= slot < n && !is_elite_slot(before, count as nat, slot) implies (
            #[trigger] self.individual_list@[slot]) == before[slot] by {
                assert(placed(order@, slot));
                let j = choose|j: int| 0 <= j < order@.len() && #[trigger] order@[j] == slot;
                if j < count {
                    assert(is_elite_slot(before, count as nat, slot));
                }
                assert(self.individual_list@[order@[j] as int] == before[order@[j] as int]);
            }
        }
    }

    /// Recombination.
    ///
    /// Draws, for every elite slot, a decision, a rank draw below the total
    /// rank weight and one coin per gene, and recombines under these draws
    /// as `population_crossover_with` does.
    pub fn population_crossover(&mut self)
        requires
            old(self).wf(),
        ensures
            final(self).wf(),
            exists|draws: Seq<CrossoverDraw>|
                {
                    &&& draws.len() == old(self).elite_count_spec()
                    &&& forall|r: int|
                        0 <= r < draws.len() ==> (#[trigger] draws[r]).drawn_for(
                            old(self).individual_list@.len(),
                        )
                    &&& #[trigger] final(self).is_crossover_of(*old(self), draws)
                },
            same_scores(final(self).individual_list@, old(self).individual_list@),
            forall|i: int, g: int|
                0 <= i < final(self).individual_list@.len() && 0 <= g < GENE_COUNT
                    ==> gene_in_pool(
                    old(self).individual_list@,
                    g,
                    #[trigger] final(self).individual_list@[i].genes@[g],
                ),
            forall|slot: int|
                0 <= slot < old(self).individual_list@.len() && !is_elite_slot(
                    old(self).individual_list@,
                    old(self).elite_count_spec(),
                    slot,
                ) ==> #[trigger] final(self).individual_list@[slot]
                    == old(self).individual_list@[slot],
    {
        let n = self.individual_list.len();
        let count = self.elite_count();
        let mut draws: Vec<CrossoverDraw> = Vec::with_capacity(count);
        if count > 0 {
            let weights = rank_weights(n);
            let total = sum_weights(weights.as_slice());
            proof {
                lemma_total_weight_is_positive(n as nat);
            }
            let mut r: usize = 0;
            while r < count
                invariant
                    r <= count,
                    n > 0,
                    draws@.len() == r,
                    total == total_weight(weights_of(n as nat)),
                    total > 0,
                    forall|k: int| 0 <= k < r ==> (#[trigger] draws@[k]).drawn_for(n as nat),
                decreases count - r,
            {
                let decision = random_helper();
                let rank_draw = uniform_below(total);
                let coins = draw_coins();
                draws.push(CrossoverDraw { decision, rank_draw, coins });
                r += 1;
            }
        }
        self.population_crossover_with(draws.as_slice());
    }

    /// Mutation under given draws.
    ///
    /// Leaves the elite slots, the first ones, as they are.  The candidate
    /// that stands `k` slots after the elite goes by `draws[k]`, and is left
    /// alone where `draws` has no such entry.  A decision below the
    /// mutation rate of the generation mutates all its genes: each gene
    /// moves by the intensity times the width of its bounds times the
    /// factor of its noise draw, and is clamped to its bounds.  The
    /// intensity is the nominal one times the candidate's score over the
    /// best score, at most doubled.  Without a finite best score nothing is
    /// mutated.  Scores and indices are not touched.
    pub fn mutate_population_with(&mut self, draws: &[MutationDraw])
        requires
            old(self).wf(),
            forall|k: int| 0 <= k < draws@.len() ==> (#[trigger] draws@[k]).valid(),
        ensures
            final(self).wf(),
            final(self).genes_bounded(),
            final(self).is_mutation_of(*old(self), draws@),
            same_scores(final(self).individual_list@, old(self).individual_list@),
    {
        let n = self.individual_list.len();
        let count = self.elite_count();
        let (rate, _) = self.get_adaptive_rates();
        let best: u128 = match self.best_fitness {
            Fitness::Finite(b) => b,
            Fitness::NonFinite => {
                return ;
            },
        };
        let ghost before = self.individual_list@;
        let mut i: usize = count;
        while i < n && i - count < draws.len()
            invariant
                n == before.len(),
                n == self.individual_list@.len(),
                before == old(self).individual_list@,
                old(self).best_fitness == Fitness::Finite(best),
                count == old(self).elite_count_spec(),
                rate == old(self).mutation_rate_now(),
                count <= i <= n,
                i - count <= draws@.len(),
                forall|k: int| 0 <= k < draws@.len() ==> (#[trigger] draws@[k]).valid(),
                *self == (Population { individual_list: self.individual_list, ..*old(self) }),
                self.wf(),
                same_scores(self.individual_list@, before),
                forall|k: int| i <= k < n ==> #[trigger] self.individual_list@[k] == before[k],
                forall|k: int|
                    0 <= k < i ==> old(self).slot_mutated(
                        k,
                        #[trigger] self.individual_list@[k],
                        draws@,
                    ),
            decreases n - i,
        {
            let draw = draws[i - count];
            assert(draw.valid());
            if draw.decision < rate {
                let ghost earlier = self.individual_list@;
                let child = mutate_individual(
                    &self.individual_list[i],
                    &self.parameter_bounds_lower,
                    &self.parameter_bounds_upper,
                    self.mutation_intensity,
                    best,
                    &draw.noise,
                );
                self.individual_list[i] = child;
                proof {
                    assert forall|k: int|
                        0 <= k < self.individual_list@.len() implies (
                    #[trigger] self.individual_list@[k]).within(
                        self.parameter_bounds_lower@,
                        self.parameter_bounds_upper@,
                    ) by {
                        if k != i {
                            assert(self.individual_list@[k] == earlier[k]);
                            assert(earlier[k].within(
                                self.parameter_bounds_lower@,
                                self.parameter_bounds_upper@,
                            ));
                        }
                    }
                    assert forall|k: int| 0 <= k < i implies old(self).slot_mutated(
                        k,
                        #[trigger] self.individual_list@[k],
                        draws@,
                    ) by {
                        assert(self.individual_list@[k] == earlier[k]);
                    }
                }
            }
            i += 1;
        }
    }

    /// Mutation.
    ///
    /// Draws, for every candidate outside the elite, a decision and one
    /// noise draw per gene, and mutates under these draws as
    /// `mutate_population_with` does.  Afterwards every gene of every
    /// candidate lies within its bounds.
    pub fn mutate_population(&mut self)
        requires
            old(self).wf(),
        ensures
            final(self).wf(),
            final(self).genes_bounded(),
            exists|draws: Seq<MutationDraw>|
                {
                    &&& draws.len() == old(self).individual_list@.len()
                        - old(self).elite_count_spec()
                    &&& forall|k: int| 0 <= k < draws.len() ==> (#[trigger] draws[k]).drawn()
                    &&& #[trigger] final(self).is_mutation_of(*old(self), draws)
                },
            same_scores(final(self).individual_list@, old(self).individual_list@),
    {
        let n = self.individual_list.len();
        let count = self.elite_count();
        let mut draws: Vec<MutationDraw> = Vec::with_capacity(n - count);
        let mut k: usize = count;
        while k < n
            invariant
                count <= k <= n,
                draws@.len() == k - count,
                forall|j: int| 0 <= j < draws@.len() ==> (#[trigger] draws@[j]).drawn(),
            decreases n - k,
        {
            let decision = random_helper();
            let noise = draw_noise();
            draws.push(MutationDraw { decision, noise });
            k += 1;
        }
        self.mutate_population_with(draws.as_slice());
    }

    /// Scores every candidate with `objective`.  Genes and indices stay as
    /// they are; each score is one that `objective` returned for its
    /// candidate.
    pub fn evaluate<F: Fn(Genome) -> Fitness>(&mut self, objective: &F)
        requires
            forall|individual: Genome| call_requires(objective, (individual,)),
        ensures
            final(self).individual_list@.len() == old(self).individual_list@.len(),
            forall|i: int|
                0 <= i < old(self).individual_list@.len() ==> {
                    let after = #[trigger] final(self).individual_list@[i];
                    let before = old(self).individual_list@[i];
                    &&& after.genes == before.genes
                    &&& after.id == before.id
                    &&& call_ensures(objective, (before,), after.fitness)
                },
            *final(self) == (Population {
                individual_list: final(self).individual_list,
                ..*old(self)
            }),
            old(self).wf() ==> final(self).wf(),
    {
        let n = self.individual_list.len();
        let ghost before = self.individual_list@;
        let mut i: usize = 0;
        while i < n
            invariant
                n == before.len(),
                n == self.individual_list@.len(),
                before == old(self).individual_list@,
                i <= n,
                forall|individual: Genome| call_requires(objective, (individual,)),
                *self == (Population { individual_list: self.individual_list, ..*old(self) }),
                forall|k: int| i <= k < n ==> #[trigger] self.individual_list@[k] == before[k],
                forall|k: int|
                    0 <= k < n ==> (#[trigger] self.individual_list@[k]).genes == before[k].genes
                        && self.individual_list@[k].id == before[k].id,
                forall|k: int|
                    0 <= k < i ==> call_ensures(
                        objective,
                        (before[k],),
                        (#[trigger] self.individual_list@[k]).fitness,
                    ),
            decreases n - i,
        {
            let mut individual = self.individual_list[i];
            individual.fitness = objective(individual);
            self.individual_list[i] = individual;
            i += 1;
        }
        proof {
            if old(self).wf() {
                assert forall|k: int| 0 <= k < self.individual_list@.len() implies (
                #[trigger] self.individual_list@[k]).within(
                    self.parameter_bounds_lower@,
                    self.parameter_bounds_upper@,
                ) by {
                    assert(before[k].within(
                        self.parameter_bounds_lower@,
                        self.parameter_bounds_upper@,
                    ));
                    assert(self.individual_list@[k].genes == before[k].genes);
                }
            }
        }
    }

    /// The run has reached its last generation.
    pub fn is_finished(&self) -> (done: bool)
        ensures
            done == (self.current_generation >= self.maximum_generation),
    {
        self.current_generation >= self.maximum_generation
    }

    /// Carries an evaluated population through one generation: ranking,
    /// recombination, mutation, ranking again, then the generation counter
    /// advances and best, worst and average are recomputed.  Returns the
    /// index of the best candidate.
    ///
    /// The recorded best score never regresses: at the end it is the better
    /// of the score recorded before and the best score of the population as
    /// it was evaluated.  The candidates stand ranked by the scores of that
    /// evaluation.
    pub fn advance_generation(&mut self) -> (best_individual: usize)
        requires
            old(self).wf(),
            old(self).current_generation < old(self).maximum_generation,
        ensures
            final(self).wf(),
            exists|
                opened: Population,
                recombined: Population,
                mutated: Population,
                closed: Population,
                crossover_draws: Seq<CrossoverDraw>,
                mutation_draws: Seq<MutationDraw>,
            |
                #[trigger] final(self).is_generation_of(
                    *old(self),
                    opened,
                    recombined,
                    mutated,
                    closed,
                    crossover_draws,
                    mutation_draws,
                ),
            final(self).current_generation == old(self).current_generation + 1,
            final(self).individual_list@.len() == old(self).individual_list@.len(),
            final(self).best_fitness.no_worse_than(old(self).best_fitness),
            is_best_with(
                final(self).best_fitness,
                old(self).best_fitness,
                old(self).individual_list@,
            ),
            ranked(final(self).individual_list@),
            best_individual == 0,
    {
        let ghost before = *self;
        self.preserve_best_solutions();
        let ghost opened = *self;
        self.population_crossover();
        let ghost crossed = *self;
        self.mutate_population();
        let ghost mutated = *self;
        self.preserve_best_solutions();
        let ghost closed = *self;
        self.current_generation = self.current_generation + 1;
        let best_individual = self.best_fitness_calc();
        proof {
            let list = closed.individual_list@;
            lemma_ranking_shares_scores(opened.individual_list@, before.individual_list@);
            lemma_same_scores_share(opened.individual_list@, crossed.individual_list@);
            lemma_same_scores_share(crossed.individual_list@, mutated.individual_list@);
            lemma_ranking_shares_scores(list, mutated.individual_list@);
            assert(share_scores(before.individual_list@, list)) by {
                assert forall|score: Fitness| #[trigger]
                    has_score(before.individual_list@, score) <==> has_score(list, score) by {
                    assert(has_score(before.individual_list@, score) <==> has_score(
                        opened.individual_list@,
                        score,
                    ));
                    assert(has_score(opened.individual_list@, score) <==> has_score(
                        crossed.individual_list@,
                        score,
                    ));
                    assert(has_score(crossed.individual_list@, score) <==> has_score(
                        mutated.individual_list@,
                        score,
                    ));
                    assert(has_score(mutated.individual_list@, score) <==> has_score(list, score));
                }
            }
            lemma_generation_best(
                before.best_fitness,
                opened.best_fitness,
                closed.best_fitness,
                self.best_fitness,
                before.individual_list@,
                opened.individual_list@,
                list,
            );
            lemma_ranked_best_stands_first(list, best_individual as int);
            let crossover_draws = choose|draws: Seq<CrossoverDraw>|
                {
                    &&& draws.len() == opened.elite_count_spec()
                    &&& forall|r: int|
                        0 <= r < draws.len() ==> (#[trigger] draws[r]).drawn_for(
                            opened.individual_list@.len(),
                        )
                    &&& #[trigger] crossed.is_crossover_of(opened, draws)
                };
            let mutation_draws = choose|draws: Seq<MutationDraw>|
                {
                    &&& draws.len() == crossed.individual_list@.len() - crossed.elite_count_spec()
                    &&& forall|k: int| 0 <= k < draws.len() ==> (#[trigger] draws[k]).drawn()
                    &&& #[trigger] mutated.is_mutation_of(crossed, draws)
                };
            assert(self.is_generation_of(
                before,
                opened,
                crossed,
                mutated,
                closed,
                crossover_draws,
                mutation_draws,
            ));
        }
        best_individual
    }
}

} // verus!
