use vstd::prelude::*;
use rand::distributions::{Distribution, WeightedIndex};
use rand::Rng;

verus! {

/// An individual of a population that breeds.
pub trait Genetic: Sized {
    /// How fit the individual is.
    spec fn fitness_spec(&self) -> u32;

    /// Whether the individual solves the problem.
    spec fn good_enough_spec(&self) -> bool;

    /// How fit the individual is: the weight of its chance to breed.
    fn fitness(&self) -> (r: u32)
        ensures
            r == self.fitness_spec(),
    ;

    /// Whether `child` may be what `reproduce` gives for `self` and `other`.
    spec fn bred(&self, other: &Self, child: Self) -> bool;

    /// Whether `after` may be what `mutate` makes of `self`.
    spec fn mutated(&self, after: Self) -> bool;

    /// A child of the two individuals.
    fn reproduce(&self, other: &Self) -> (r: Self)
        ensures
            self.bred(other, r),
    ;

    /// Changes the individual at random.
    fn mutate(&mut self)
        ensures
            old(self).mutated(*final(self)),
    ;

    /// Whether the individual solves the problem.
    fn good_enough(&self) -> (r: bool)
        ensures
            r == self.good_enough_spec(),
    ;
}

/// The fitness of each individual.
pub open spec fn fitness_of<N: Genetic>(population: Seq<N>) -> Seq<u32> {
    population.map_values(|x: N| x.fitness_spec())
}

/// Position `i` holds the largest weight, and the last one among equal
/// ones.
pub open spec fn best_at(ws: Seq<u32>, i: int) -> bool {
    &&& 0 <= i < ws.len()
    &&& forall|k: int| 0 <= k < i ==> ws[k] <= ws[i]
    &&& forall|k: int| i < k < ws.len() ==> ws[k] < ws[i]
}

/// Parents can be drawn by these weights: their sum fits in a `u32` and
/// one of them is positive.
pub open spec fn breedable(ws: Seq<u32>) -> bool {
    &&& weight_sum(ws) <= u32::MAX
    &&& exists|k: int| 0 <= k < ws.len() && ws[k] > 0
}

/// `child` is what `x` and `y` breed, mutated or not.
pub open spec fn bred_from<N: Genetic>(x: N, y: N, child: N) -> bool {
    x.bred(&y, child) || exists|c: N| x.bred(&y, c) && #[trigger] c.mutated(child)
}

/// `child` is bred from two parents of `parents` whose fitness is positive,
/// the only ones that can be drawn.
pub open spec fn offspring<N: Genetic>(parents: Seq<N>, child: N) -> bool {
    exists|i: int, j: int|
        0 <= i < parents.len() && 0 <= j < parents.len() && parents[i].fitness_spec() > 0
            && parents[j].fitness_spec() > 0 && #[trigger] bred_from(parents[i], parents[j], child)
}

/// `next` is a generation bred from `prev`: as many children, each bred
/// from two parents of `prev`, and none good enough.
pub open spec fn next_generation<N: Genetic>(prev: Seq<N>, next: Seq<N>) -> bool {
    &&& next.len() == prev.len()
    &&& forall|k: int| 0 <= k < next.len() ==> offspring(prev, #[trigger] next[k]) && !next[k].good_enough_spec()
}

/// `gens` is a line of generations that starts at `first`, each bred from
/// the one before it.
pub open spec fn lineage<N: Genetic>(first: Seq<N>, gens: Seq<Seq<N>>) -> bool {
    &&& gens.len() > 0
    &&& gens[0] == first
    &&& forall|g: int| 0 <= g < gens.len() - 1 ==> #[trigger] next_generation(gens[g], gens[g + 1])
}

/// `x` is the fittest of `population`, the last one among equally fit
/// ones.
pub open spec fn fittest_of<N: Genetic>(population: Seq<N>, x: N) -> bool {
    exists|i: int| best_at(fitness_of(population), i) && x == population[i]
}

/// The sum of the weights.
pub open spec fn weight_sum(ws: Seq<u32>) -> int
    decreases ws.len(),
{
    if ws.len() == 0 {
        0
    } else {
        weight_sum(ws.drop_last()) + ws.last()
    }
}

/// `WeightedIndex::new` over the weights, then `sample` with the thread's
/// generator: an index drawn with chance proportional to its weight, so of a
/// positive weight; `None` when every weight is zero, the error the
/// constructor gives then. The weights' sum must fit in a `u32`, which the
/// constructor adds them up in.
#[verifier::external_body]
fn weighted_index(weights: &Vec<u32>) -> (r: Option<usize>)
    requires
        weights@.len() > 0,
        weight_sum(weights@) <= u32::MAX,
    ensures
        r matches Some(i) ==> i < weights@.len() && weights@[i as int] > 0,
        r is None <==> forall|k: int| 0 <= k < weights@.len() ==> weights@[k] == 0,
{
    match WeightedIndex::new(weights) {
        Ok(dist) => Some(dist.sample(&mut rand::thread_rng())),
        Err(_) => None,
    }
}

/// `Rng::gen_ratio` on the thread's generator: `true` with chance
/// `numerator / denominator`; nothing is promised of the outcome.
#[verifier::external_body]
fn random_ratio(numerator: u32, denominator: u32) -> bool
    requires
        0 < denominator,
        numerator <= denominator,
{
    rand::thread_rng().gen_ratio(numerator, denominator)
}

/// The chance of a mutation: one in a hundred.
pub const SMALL_PROB: (u32, u32) = (1, 100);

/// The sum of a prefix of the weights is at most the sum of them all.
proof fn lemma_weight_sum_prefix(ws: Seq<u32>, k: int)
    requires
        0 <= k <= ws.len(),
    ensures
        weight_sum(ws.take(k)) <= weight_sum(ws),
    decreases ws.len(),
{
    if k < ws.len() {
        assert(ws.drop_last().take(k) =~= ws.take(k));
        lemma_weight_sum_prefix(ws.drop_last(), k);
    } else {
        assert(ws.take(k) =~= ws);
    }
}

/// The fitness of each individual, if their sum fits in a `u32`.
fn fitnesses<N: Genetic>(population: &Vec<N>) -> (r: Option<Vec<u32>>)
    ensures
        r matches Some(ws) ==> ws@ == fitness_of(population@),
        r is Some <==> weight_sum(fitness_of(population@)) <= u32::MAX,
{
    let ghost all = fitness_of(population@);
    let mut ws: Vec<u32> = Vec::new();
    let mut sum: u32 = 0;
    let mut k: usize = 0;
    while k < population.len()
        invariant
            k <= population@.len(),
            all == fitness_of(population@),
            ws@ == all.take(k as int),
            sum == weight_sum(ws@),
        decreases population.len() - k,
    {
        let f = population[k].fitness();
        let ghost before = ws@;
        match sum.checked_add(f) {
            Some(s) => {
                sum = s;
            },
            None => {
                proof {
                    assert(all.take(k + 1).drop_last() =~= before);
                    lemma_weight_sum_prefix(all, k + 1);
                }
                return None;
            },
        }
        ws.push(f);
        proof {
            assert(ws@ =~= all.take(k + 1));
            assert(ws@.drop_last() =~= before);
        }
        k += 1;
    }
    proof {
        assert(all.take(k as int) =~= all);
    }
    Some(ws)
}

/// The position of the largest fitness, the last one among equal ones.
pub fn fittest(fitness: &Vec<u32>) -> (r: usize)
    requires
        fitness@.len() > 0,
    ensures
        r < fitness@.len(),
        forall|k: int| 0 <= k < r ==> fitness@[k] <= fitness@[r as int],
        forall|k: int| r < k < fitness@.len() ==> fitness@[k] < fitness@[r as int],
{
    let mut best: usize = 0;
    let mut k: usize = 1;
    while k < fitness.len()
        invariant
            1 <= k <= fitness@.len(),
            best < k,
            forall|j: int| 0 <= j < best ==> fitness@[j] <= fitness@[best as int],
            forall|j: int| best < j < k ==> fitness@[j] < fitness@[best as int],
        decreases fitness.len() - k,
    {
        if fitness[k] >= fitness[best] {
            best = k;
        }
        k += 1;
    }
    best
}

/// The fitness of each individual, each asked once.
fn all_fitness<N: Genetic>(population: &Vec<N>) -> (r: Vec<u32>)
    ensures
        r@ == fitness_of(population@),
{
    let mut ws: Vec<u32> = Vec::new();
    let mut k: usize = 0;
    while k < population.len()
        invariant
            k <= population@.len(),
            ws@ == fitness_of(population@).take(k as int),
        decreases population.len() - k,
    {
        ws.push(population[k].fitness());
        proof {
            assert(ws@ =~= fitness_of(population@).take(k + 1));
        }
        k += 1;
    }
    proof {
        assert(ws@ =~= fitness_of(population@));
    }
    ws
}

/// The child of parents `x` and `y` of the population, mutated when
/// `mutation` says so.
fn breed<N: Genetic>(population: &Vec<N>, x: usize, y: usize, mutation: bool) -> (r: N)
    requires
        x < population@.len(),
        y < population@.len(),
    ensures
        mutation ==> exists|c: N| population@[x as int].bred(&population@[y as int], c) && #[trigger] c.mutated(r),
        !mutation ==> population@[x as int].bred(&population@[y as int], r),
{
    let mut child = population[x].reproduce(&population[y]);
    let ghost before = child;
    if mutation {
        child.mutate();
        proof {
            assert(population@[x as int].bred(&population@[y as int], before) && before.mutated(child));
        }
    }
    child
}

/// Where a bred child goes: a good enough child ends the search and is
/// returned; any other joins the next generation.
fn place_child<N: Genetic>(child: N, next: &mut Vec<N>) -> (r: Option<N>)
    ensures
        r matches Some(c) ==> c == child && child.good_enough_spec() && final(next)@ == old(next)@,
        r is None ==> !child.good_enough_spec() && final(next)@ == old(next)@.push(child),
{
    if child.good_enough() {
        Some(child)
    } else {
        next.push(child);
        None
    }
}

/// Breeds `cycles` generations from `population`: each child of two parents
/// drawn by fitness, mutated with a small chance, and the first good enough
/// child returned; else the fittest of the last generation (see `fittest`).
/// `None` when parents cannot be drawn in some generation: every fitness
/// zero, or their sum past a `u32`.
pub fn genetic_search<N: Genetic>(population: Vec<N>, cycles: usize) -> (r: Option<N>)
    requires
        population@.len() > 0,
    ensures
        cycles == 0 ==> (r matches Some(x) && fittest_of(population@, x)),
        cycles > 0 && !breedable(fitness_of(population@)) ==> r is None,
        cycles == 1 && breedable(fitness_of(population@)) ==> r is Some,
        r matches Some(x) ==> exists|gens: Seq<Seq<N>>|
            #[trigger] lineage(population@, gens) && gens.len() <= cycles + 1 && ((gens.len() <= cycles
                && x.good_enough_spec() && offspring(gens.last(), x)) || (gens.len() == cycles + 1
                && fittest_of(gens.last(), x))),
        r is None ==> cycles > 0 && exists|gens: Seq<Seq<N>>|
            #[trigger] lineage(population@, gens) && gens.len() <= cycles && !breedable(fitness_of(gens.last())),
{
    let ghost first = population@;
    let size = population.len();
    let mut pop = population;
    let (d, n) = SMALL_PROB;
    let mut cycle: usize = 0;
    let ghost mut gens: Seq<Seq<N>> = seq![first];
    while cycle < cycles
        invariant
            pop@.len() == size,
            size == first.len(),
            size > 0,
            d == 1 && n == 100,
            cycle <= cycles,
            cycle == 0 ==> pop@ == first,
            first == population@,
            cycles > 0 && !breedable(fitness_of(first)) ==> cycle == 0,
            lineage(first, gens),
            gens.len() == cycle + 1,
            gens.last() == pop@,
        decreases cycles - cycle,
    {
        let weights = match fitnesses(&pop) {
            Some(ws) => ws,
            None => {
                return None;
            },
        };
        let mut next: Vec<N> = Vec::new();
        let mut k: usize = 0;
        while k < size
            invariant
                pop@.len() == size,
                size > 0,
                k <= size,
                next@.len() == k,
                weights@ == fitness_of(pop@),
                weight_sum(weights@) <= u32::MAX,
                d == 1 && n == 100,
                cycle < cycles,
                cycle == 0 ==> pop@ == first,
                first == population@,
                cycles > 0 && !breedable(fitness_of(first)) ==> cycle == 0,
                breedable(weights@) || k == 0,
                lineage(first, gens),
                gens.len() == cycle + 1,
                gens.last() == pop@,
                forall|i: int| 0 <= i < k ==> offspring(pop@, #[trigger] next@[i]) && !next@[i].good_enough_spec(),
            decreases size - k,
        {
            let x = match weighted_index(&weights) {
                Some(i) => i,
                None => {
                    return None;
                },
            };
            let y = match weighted_index(&weights) {
                Some(i) => i,
                None => {
                    return None;
                },
            };
            proof {
                assert(weights@[x as int] > 0);
                assert(weights@[y as int] > 0);
                assert(breedable(weights@));
            }
            let mutation = random_ratio(d, n);
            let child = breed(&pop, x, y, mutation);
            proof {
                assert(pop@[x as int].fitness_spec() == weights@[x as int]);
                assert(pop@[y as int].fitness_spec() == weights@[y as int]);
                assert(bred_from(pop@[x as int], pop@[y as int], child));
                assert(offspring(pop@, child));
            }
            let ghost before = next@;
            match place_child(child, &mut next) {
                Some(c) => {
                    proof {
                        if cycle == 0 {
                            assert(weights@ == fitness_of(first));
                        }
                        assert(lineage(first, gens));
                    }
                    return Some(c);
                },
                None => {},
            }
            proof {
                assert forall|i: int| 0 <= i < k + 1 implies offspring(pop@, #[trigger] next@[i])
                    && !next@[i].good_enough_spec() by {
                    if i < k {
                        assert(next@[i] == before[i]);
                    }
                }
            }
            k += 1;
        }
        proof {
            let old_gens = gens;
            assert(next_generation(pop@, next@));
            gens = gens.push(next@);
            assert forall|g: int| 0 <= g < gens.len() - 1 implies #[trigger] next_generation(gens[g], gens[g + 1]) by {
                if g < old_gens.len() - 1 {
                    assert(gens[g] == old_gens[g] && gens[g + 1] == old_gens[g + 1]);
                    assert(next_generation(old_gens[g], old_gens[g + 1]));
                }
            }
        }
        pop = next;
        cycle += 1;
    }
    let fitness = all_fitness(&pop);
    let best = fittest(&fitness);
    let ghost last = pop@;
    let x = pop.swap_remove(best);
    proof {
        assert(last[best as int] == x);
        assert(best_at(fitness_of(last), best as int));
        assert(fittest_of(last, x));
        assert(lineage(first, gens));
    }
    Some(x)
}

} // verus!
