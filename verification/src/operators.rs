use crate::fitness::Fitness;
use crate::fixed_point::{abs, magnitude, trunc_div, UNIT, UNIT_SQUARED};
use vstd::arithmetic::div_mod::{lemma_div_is_ordered, lemma_fundamental_div_mod};
use crate::genome::{Genome, GENE_COUNT};
use crate::random::{random_helper, uniform_below};
use vstd::prelude::*;

verus! {

/// The weight of the best rank.  Rank `r` weighs `RANK_WEIGHT / (1 + r)`,
/// rounded down.
pub const RANK_WEIGHT: u64 = 0x4000_0000_0000_0000;

/// A coin below this value takes the donor's gene.
pub const HALF: u64 = 500_000_000;

/// Twice `UNIT`: the cap of the intensity scale and the width of a noise draw.
pub const DOUBLE: u64 = 2_000_000_000;

/// The random choices that recombination makes for one elite slot.
#[derive(Clone, Copy, Debug, PartialEq, Eq)]
pub struct CrossoverDraw {
    /// The slot is recombined where this fraction lies below the crossover
    /// rate.
    pub decision: u64,
    /// Selects the donor's rank.
    pub rank_draw: u128,
    /// One coin per gene.
    pub coins: [u64; 10],
}

/// The random choices that mutation makes for one candidate.
#[derive(Clone, Copy, Debug, PartialEq, Eq)]
pub struct MutationDraw {
    /// The candidate is mutated where this fraction lies below the mutation
    /// rate.
    pub decision: u64,
    /// One noise draw per gene, each below `DOUBLE`.
    pub noise: [u64; 10],
}

impl MutationDraw {
    /// Every noise draw stands for a factor between minus one and one.
    pub open spec fn valid(self) -> bool {
        forall|g: int| 0 <= g < GENE_COUNT ==> #[trigger] self.noise@[g] < DOUBLE
    }

    /// The draw is one that chance can give: a decision below one, and
    /// valid noise draws.
    pub open spec fn drawn(self) -> bool {
        self.decision < UNIT && self.valid()
    }
}

/// The weight of a rank: `RANK_WEIGHT` over one plus the rank, rounded down.
pub open spec fn rank_weight(rank: int) -> int {
    (RANK_WEIGHT as int) / (1 + rank)
}

/// The weights of the ranks of `n` candidates.
pub open spec fn weights_of(n: nat) -> Seq<u64> {
    Seq::new(n, |r: int| rank_weight(r) as u64)
}

/// The weights of the ranks of `n` candidates, best rank first.
pub fn rank_weights(n: usize) -> (weights: Vec<u64>)
    ensures
        weights@ == weights_of(n as nat),
{
    let mut weights: Vec<u64> = Vec::with_capacity(n);
    let mut r: usize = 0;
    while r < n
        invariant
            r <= n,
            weights@.len() == r,
            forall|k: int| 0 <= k < r ==> #[trigger] weights@[k] == rank_weight(k),
        decreases n - r,
    {
        weights.push(RANK_WEIGHT / (1 + r as u64));
        r += 1;
    }
    assert(weights@ =~= weights_of(n as nat));
    weights
}

/// The sum of the first `n` weights.
pub open spec fn weight_before(weights: Seq<u64>, n: nat) -> nat
    decreases n,
{
    if n == 0 {
        0
    } else {
        weight_before(weights, (n - 1) as nat) + weights[n - 1] as nat
    }
}

/// The sum of all weights.
pub open spec fn total_weight(weights: Seq<u64>) -> nat {
    weight_before(weights, weights.len())
}

impl CrossoverDraw {
    /// The draw is one that chance can give for a population of `n`
    /// candidates: a decision and coins below one, and a rank draw below the
    /// total weight of the ranks.
    pub open spec fn drawn_for(self, n: nat) -> bool {
        &&& self.decision < UNIT
        &&& forall|g: int| 0 <= g < GENE_COUNT ==> #[trigger] self.coins@[g] < UNIT
        &&& n > 0 ==> self.rank_draw < total_weight(weights_of(n))
    }
}

/// The best rank weighs something, so the total weight of the ranks of a
/// population with a candidate is positive.
pub proof fn lemma_total_weight_is_positive(n: nat)
    requires
        n > 0,
    ensures
        total_weight(weights_of(n)) >= RANK_WEIGHT,
{
    let weights = weights_of(n);
    lemma_weight_before_grows(weights, 1, n);
    assert(weight_before(weights, 1) == weight_before(weights, 0) + weights[0] as nat);
    assert(weights[0] == rank_weight(0));
}

/// `rank` is the rank that `draw` selects: the one whose stretch of the
/// line from zero to the total weight holds the draw, each rank's stretch
/// being as long as its weight; the last rank for a draw beyond the line.
pub open spec fn is_drawn_rank(weights: Seq<u64>, draw: int, rank: int) -> bool {
    &&& 0 <= rank < weights.len()
    &&& if draw < total_weight(weights) {
        weight_before(weights, rank as nat) <= draw < weight_before(weights, (rank + 1) as nat)
    } else {
        rank == weights.len() - 1
    }
}

/// Weights only add up: no partial sum exceeds a later one, and the first
/// `b` weights add up to at most `b` times the largest weight there is.
pub proof fn lemma_weight_before_grows(weights: Seq<u64>, a: nat, b: nat)
    requires
        a <= b,
    ensures
        weight_before(weights, a) <= weight_before(weights, b),
        weight_before(weights, b) <= b * u64::MAX,
    decreases b,
{
    if b > 0 {
        if a < b {
            lemma_weight_before_grows(weights, a, (b - 1) as nat);
        } else {
            lemma_weight_before_grows(weights, (b - 1) as nat, (b - 1) as nat);
        }
        assert((b - 1) * u64::MAX + u64::MAX == b * u64::MAX) by (nonlinear_arith);
    }
}

/// Adds up the weights.
pub fn sum_weights(weights: &[u64]) -> (total: u128)
    ensures
        total == total_weight(weights@),
{
    let n = weights.len();
    let mut total: u128 = 0;
    let mut i: usize = 0;
    while i < n
        invariant
            n == weights@.len(),
            i <= n,
            total == weight_before(weights@, i as nat),
            total <= i * u64::MAX,
        decreases n - i,
    {
        assert(i * u64::MAX + u64::MAX <= u128::MAX) by (nonlinear_arith)
            requires
                i < 0x1_0000_0000_0000_0000,
        ;
        total = total + weights[i] as u128;
        assert(i * u64::MAX + u64::MAX == (i + 1) * u64::MAX) by (nonlinear_arith);
        i += 1;
    }
    total
}

/// The rank that a draw selects.
pub fn rank_for_draw(weights: &[u64], draw: u128) -> (rank: usize)
    requires
        weights@.len() > 0,
    ensures
        is_drawn_rank(weights@, draw as int, rank as int),
{
    let n = weights.len();
    let mut passed: u128 = 0;
    let mut i: usize = 0;
    while i < n
        invariant
            n == weights@.len(),
            n > 0,
            i <= n,
            passed == weight_before(weights@, i as nat),
            passed <= i * u64::MAX,
            passed <= draw,
        decreases n - i,
    {
        assert(i * u64::MAX + u64::MAX <= u128::MAX) by (nonlinear_arith)
            requires
                i < 0x1_0000_0000_0000_0000,
        ;
        let next: u128 = passed + weights[i] as u128;
        assert(i * u64::MAX + u64::MAX == (i + 1) * u64::MAX) by (nonlinear_arith);
        if draw < next {
            proof {
                lemma_weight_before_grows(weights@, (i + 1) as nat, n as nat);
            }
            return i;
        }
        passed = next;
        i += 1;
    }
    n - 1
}

/// Selects a rank at random, each rank in proportion to its weight.
///
/// Draws an integer evenly from zero up to the total weight and returns the
/// rank that the draw selects.  Where all weights are zero no draw is made
/// and the first rank is returned.
pub fn select_by_rank(weights: &[u64]) -> (rank: usize)
    requires
        weights@.len() > 0,
    ensures
        rank < weights@.len(),
        total_weight(weights@) > 0 ==> exists|draw: int|
            0 <= draw < total_weight(weights@) && is_drawn_rank(weights@, draw, rank as int),
        total_weight(weights@) == 0 ==> rank == 0,
{
    let total = sum_weights(weights);
    if total == 0 {
        0
    } else {
        let draw = uniform_below(total);
        let rank = rank_for_draw(weights, draw);
        assert(is_drawn_rank(weights@, draw as int, rank as int));
        rank
    }
}

/// `child` takes each gene from `donor` where the coin of that gene falls
/// below one half, from `target` otherwise, and keeps the score and the
/// index of `target`.
pub open spec fn is_blend(child: Genome, target: Genome, donor: Genome, coins: Seq<u64>) -> bool {
    &&& child.fitness == target.fitness
    &&& child.id == target.id
    &&& forall|g: int|
        0 <= g < GENE_COUNT ==> #[trigger] child.genes@[g] == if coins[g] < HALF {
            donor.genes@[g]
        } else {
            target.genes@[g]
        }
}

/// Recombines `target` with `donor`, gene by gene.
pub fn blend(target: &Genome, donor: &Genome, coins: &[u64; 10]) -> (child: Genome)
    ensures
        is_blend(child, *target, *donor, coins@),
{
    let mut child = *target;
    let mut g: usize = 0;
    while g < GENE_COUNT
        invariant
            g <= GENE_COUNT,
            child.fitness == target.fitness,
            child.id == target.id,
            forall|k: int|
                0 <= k < g ==> #[trigger] child.genes@[k] == if coins@[k] < HALF {
                    donor.genes@[k]
                } else {
                    target.genes@[k]
                },
            forall|k: int| g <= k < GENE_COUNT ==> #[trigger] child.genes@[k] == target.genes@[k],
        decreases GENE_COUNT - g,
    {
        if coins[g] < HALF {
            child.genes[g] = donor.genes[g];
        }
        g += 1;
    }
    child
}

/// Ten random fractions, one per gene.
pub fn draw_coins() -> (coins: [u64; 10])
    ensures
        forall|g: int| 0 <= g < GENE_COUNT ==> #[trigger] coins@[g] < UNIT,
{
    let mut coins: [u64; 10] = [0u64; 10];
    let mut g: usize = 0;
    while g < GENE_COUNT
        invariant
            g <= GENE_COUNT,
            forall|k: int| 0 <= k < g ==> #[trigger] coins@[k] < UNIT,
        decreases GENE_COUNT - g,
    {
        coins[g] = random_helper();
        g += 1;
    }
    coins
}

/// Scores below this bound enter the ratio of two scores as they are.
pub const EXACT_RATIO_BOUND: u128 = 0x4_0000_0000_0000_0000_0000_0000;

/// What larger scores are divided by before they enter the ratio.
pub const RATIO_REDUCTION: u128 = 0x4000_0000;

/// The ratio of a score to the best score, on the scale of `UNIT` and
/// rounded down.  Scores from `EXACT_RATIO_BOUND` on are both divided by
/// `RATIO_REDUCTION` first, which keeps the product within 128 bits.
pub open spec fn score_ratio(score: u128, best: u128) -> int {
    if score < EXACT_RATIO_BOUND {
        score * UNIT / (best as int)
    } else {
        (score / RATIO_REDUCTION) * UNIT / ((best / RATIO_REDUCTION) as int)
    }
}

/// How much harder a candidate is mutated than the nominal intensity asks,
/// on the scale of `UNIT`: its score over the best score, capped at two;
/// two where it has no finite score or the best score is zero.
pub open spec fn scale_factor(fitness: Fitness, best: u128) -> int {
    match fitness {
        Fitness::NonFinite => DOUBLE as int,
        Fitness::Finite(f) => if best == 0 || f >= 2 * best || score_ratio(f, best) > DOUBLE {
            DOUBLE as int
        } else {
            score_ratio(f, best)
        },
    }
}

/// The intensity with which a candidate is mutated.
pub open spec fn effective_intensity(intensity: u64, fitness: Fitness, best: u128) -> int {
    intensity * scale_factor(fitness, best) / (UNIT as int)
}

/// The perturbation of one gene: intensity times the width of the gene's
/// bounds times a factor between minus one and one, which the draw gives
/// as its distance from `UNIT`.
pub open spec fn noise(intensity: int, lower: i64, upper: i64, draw: u64) -> int {
    trunc_div(intensity * (upper - lower) * (draw - UNIT), UNIT_SQUARED as int)
}

/// `v`, moved to the nearer bound where it lies outside them.
pub open spec fn clamped(v: int, lower: int, upper: int) -> int {
    if v < lower {
        lower
    } else if v > upper {
        upper
    } else {
        v
    }
}

/// The gene after mutation.
pub open spec fn mutated_gene(gene: i64, lower: i64, upper: i64, intensity: int, draw: u64) -> int {
    clamped(gene + noise(intensity, lower, upper, draw), lower as int, upper as int)
}

/// Computes the intensity with which a candidate is mutated.
pub fn intensity_for(intensity: u64, fitness: Fitness, best: u128) -> (r: u128)
    ensures
        r == effective_intensity(intensity, fitness, best),
        r <= 2 * intensity,
{
    let factor: u128 = match fitness {
        Fitness::NonFinite => DOUBLE as u128,
        Fitness::Finite(f) => {
            if best == 0 || f / 2 >= best {
                DOUBLE as u128
            } else {
                let ratio: u128 = if f < EXACT_RATIO_BOUND {
                    assert(f * UNIT <= 0x4_0000_0000_0000_0000_0000_0000 * 0x4000_0000)
                        by (nonlinear_arith)
                        requires
                            f <= 0x4_0000_0000_0000_0000_0000_0000,
                            UNIT <= 0x4000_0000,
                    ;
                    f * (UNIT as u128) / best
                } else {
                    let reduced: u128 = f / RATIO_REDUCTION;
                    assert(reduced * UNIT <= 0x4_0000_0000_0000_0000_0000_0000 * 0x4000_0000)
                        by (nonlinear_arith)
                        requires
                            reduced <= 0x4_0000_0000_0000_0000_0000_0000,
                            UNIT <= 0x4000_0000,
                    ;
                    reduced * (UNIT as u128) / (best / RATIO_REDUCTION)
                };
                if ratio > DOUBLE as u128 {
                    DOUBLE as u128
                } else {
                    ratio
                }
            }
        },
    };
    assert(factor == scale_factor(fitness, best));
    assert(intensity * factor <= 0xffff_ffff_ffff_ffff * 0x8000_0000) by (nonlinear_arith)
        requires
            intensity <= 0xffff_ffff_ffff_ffff,
            factor <= 0x8000_0000,
    ;
    let scaled: u128 = (intensity as u128) * factor / (UNIT as u128);
    assert(scaled <= 2 * intensity) by (nonlinear_arith)
        requires
            scaled == (intensity * factor) / (UNIT as int),
            0 <= factor <= 2 * UNIT,
            intensity >= 0,
            UNIT > 0,
    ;
    scaled
}

/// A noise of this size or more carries every gene beyond its bounds.
pub const NOISE_BEYOND_BOUNDS: u128 = 0x2_0000_0000_0000_0000;

/// Mutates one gene and clamps it to its bounds.
pub fn mutate_gene(gene: i64, lower: i64, upper: i64, intensity: u128, draw: u64) -> (r: i64)
    requires
        lower <= upper,
        draw < DOUBLE,
    ensures
        r == mutated_gene(gene, lower, upper, intensity as int, draw),
        lower <= r <= upper,
{
    let width: u128 = (upper as i128 - lower as i128) as u128;
    let swing: i128 = draw as i128 - UNIT as i128;
    let reach: u128 = magnitude(swing);
    assert(width * reach <= 0xffff_ffff_ffff_ffff * 0x4000_0000) by (nonlinear_arith)
        requires
            width <= 0xffff_ffff_ffff_ffff,
            reach <= 0x4000_0000,
    ;
    let span: u128 = width * reach;
    let ghost exact: int = intensity * (upper - lower) * (draw - UNIT);
    assert(exact == if swing < 0 {
        -(intensity * span)
    } else {
        intensity * span
    }) by (nonlinear_arith)
        requires
            exact == intensity * (upper - lower) * swing,
            span == width * reach,
            width == upper - lower,
            reach == abs(swing as int),
    ;
    assert(intensity * span >= 0) by (nonlinear_arith)
        requires
            intensity >= 0,
            span >= 0,
    ;
    let ghost size: int = (intensity * span) / (UNIT_SQUARED as int);
    assert(noise(intensity as int, lower, upper, draw) == if swing < 0 {
        -size
    } else {
        size
    });
    let small: Option<u128> = if span == 0 {
        assert(intensity * span == 0) by (nonlinear_arith)
            requires
                span == 0,
        ;
        Some(0)
    } else {
        let cap: u128 = u128::MAX / span;
        if intensity > cap {
            proof {
                lemma_fundamental_div_mod(u128::MAX as int, span as int);
                let whole: int = 0x1_0000_0000_0000_0000_0000_0000_0000_0000int;
                assert(intensity * span >= whole) by (nonlinear_arith)
                    requires
                        intensity >= cap + 1,
                        span >= 1,
                        u128::MAX == span * cap + (u128::MAX as int) % (span as int),
                        0 <= (u128::MAX as int) % (span as int) < span,
                        whole == u128::MAX + 1,
                ;
                lemma_div_is_ordered(whole, intensity * span, UNIT_SQUARED as int);
                assert(whole / (UNIT_SQUARED as int) >= NOISE_BEYOND_BOUNDS) by (nonlinear_arith)
                    requires
                        whole == 0x1_0000_0000_0000_0000_0000_0000_0000_0000int,
                        UNIT_SQUARED == 1_000_000_000_000_000_000,
                        NOISE_BEYOND_BOUNDS == 0x2_0000_0000_0000_0000,
                ;
            }
            None
        } else {
            proof {
                lemma_fundamental_div_mod(u128::MAX as int, span as int);
                assert(intensity * span <= u128::MAX) by (nonlinear_arith)
                    requires
                        0 <= intensity <= cap,
                        span >= 1,
                        u128::MAX == span * cap + (u128::MAX as int) % (span as int),
                        0 <= (u128::MAX as int) % (span as int) < span,
                ;
            }
            let quotient: u128 = intensity * span / UNIT_SQUARED;
            if quotient >= NOISE_BEYOND_BOUNDS {
                None
            } else {
                Some(quotient)
            }
        }
    };
    match small {
        None => {
            assert(size >= NOISE_BEYOND_BOUNDS);
            assert(swing != 0);
            if swing < 0 {
                lower
            } else {
                upper
            }
        },
        Some(quotient) => {
            let shift: i128 = if swing < 0 {
                -(quotient as i128)
            } else {
                quotient as i128
            };
            let moved: i128 = gene as i128 + shift;
            if moved < lower as i128 {
                lower
            } else if moved > upper as i128 {
                upper
            } else {
                moved as i64
            }
        },
    }
}

/// `child` is `parent` with every gene mutated under the draw of that gene.
pub open spec fn is_mutation(
    child: Genome,
    parent: Genome,
    lower: Seq<i64>,
    upper: Seq<i64>,
    intensity: int,
    draws: Seq<u64>,
) -> bool {
    &&& child.fitness == parent.fitness
    &&& child.id == parent.id
    &&& forall|g: int|
        0 <= g < GENE_COUNT ==> #[trigger] child.genes@[g] == mutated_gene(
            parent.genes@[g],
            lower[g],
            upper[g],
            intensity,
            draws[g],
        )
}

/// Mutates every gene of a candidate with the intensity that its score
/// calls for.  Score and index stay as they are.
pub fn mutate_individual(
    individual: &Genome,
    lower: &[i64; 10],
    upper: &[i64; 10],
    intensity: u64,
    best: u128,
    draws: &[u64; 10],
) -> (child: Genome)
    requires
        forall|g: int| 0 <= g < GENE_COUNT ==> #[trigger] lower@[g] <= upper@[g],
        forall|g: int| 0 <= g < GENE_COUNT ==> #[trigger] draws@[g] < DOUBLE,
    ensures
        is_mutation(
            child,
            *individual,
            lower@,
            upper@,
            effective_intensity(intensity, individual.fitness, best),
            draws@,
        ),
        child.within(lower@, upper@),
{
    let effective = intensity_for(intensity, individual.fitness, best);
    let mut child = *individual;
    let mut g: usize = 0;
    while g < GENE_COUNT
        invariant
            g <= GENE_COUNT,
            forall|k: int| 0 <= k < GENE_COUNT ==> #[trigger] lower@[k] <= upper@[k],
            forall|k: int| 0 <= k < GENE_COUNT ==> #[trigger] draws@[k] < DOUBLE,
            child.fitness == individual.fitness,
            child.id == individual.id,
            forall|k: int|
                0 <= k < g ==> #[trigger] child.genes@[k] == mutated_gene(
                    individual.genes@[k],
                    lower@[k],
                    upper@[k],
                    effective as int,
                    draws@[k],
                ),
            forall|k: int| 0 <= k < g ==> lower@[k] <= #[trigger] child.genes@[k] <= upper@[k],
            forall|k: int|
                g <= k < GENE_COUNT ==> #[trigger] child.genes@[k] == individual.genes@[k],
        decreases GENE_COUNT - g,
    {
        assert(lower@[g as int] <= upper@[g as int]);
        assert(draws@[g as int] < DOUBLE);
        child.genes[g] = mutate_gene(individual.genes[g], lower[g], upper[g], effective, draws[g]);
        g += 1;
    }
    child
}

/// Ten noise draws, one per gene, each drawn evenly from zero up to, but
/// not including, twice `UNIT`.
pub fn draw_noise() -> (draws: [u64; 10])
    ensures
        forall|g: int| 0 <= g < GENE_COUNT ==> #[trigger] draws@[g] < DOUBLE,
{
    let mut draws: [u64; 10] = [0u64; 10];
    let mut g: usize = 0;
    while g < GENE_COUNT
        invariant
            g <= GENE_COUNT,
            forall|k: int| 0 <= k < g ==> #[trigger] draws@[k] < DOUBLE,
        decreases GENE_COUNT - g,
    {
        draws[g] = uniform_below(DOUBLE as u128) as u64;
        g += 1;
    }
    draws
}

/// The gene that a draw selects from its bounds: the one that stands
/// `offset` units above the lower bound.  The draw counts the units and
/// lies below the width of the bounds.
pub fn gene_at_offset(lower: i64, upper: i64, offset: u128) -> (gene: i64)
    requires
        lower < upper,
        offset < upper - lower,
    ensures
        gene == lower + offset,
{
    (lower as i128 + offset as i128) as i64
}

/// A gene drawn evenly from its bounds, the upper one excluded: draws an
/// offset below the width of the bounds and takes the gene that
/// `gene_at_offset` gives for it.
pub fn random_gene(lower: i64, upper: i64) -> (gene: i64)
    requires
        lower < upper,
    ensures
        lower <= gene < upper,
{
    let width: u128 = (upper as i128 - lower as i128) as u128;
    let offset: u128 = uniform_below(width);
    gene_at_offset(lower, upper, offset)
}

} // verus!
