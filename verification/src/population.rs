//! A population of individuals: ranking by fitness and breeding the next
//! generation.

use vstd::prelude::*;
use crate::crossover::{crossed, crossover};
use crate::genome::{drawn_by, fully_connected, Genome, GenomeIds, GenomeView, Individual};
use crate::graph::acyclic;
use crate::mutation::{mutate, mutation_outcome, MutationsType};
use crate::random::random_index;
use crate::scalar::{greater, is_nan, order_key, ZERO};

verus! {

/// The choice of the individuals whose fitness has the given ordering key.
pub open spec fn with_key(key: int) -> spec_fn(Individual) -> bool {
    |x: Individual| order_key(x.fitness) == key
}

/// Whether no fitness is a NaN.
pub open spec fn all_numbers(s: Seq<Individual>) -> bool {
    forall|i: int| 0 <= i < s.len() ==> !is_nan((#[trigger] s[i]).fitness)
}

/// Whether the fitness never rises from one individual to the next.
pub open spec fn ranked(s: Seq<Individual>) -> bool {
    forall|i: int, j: int|
        0 <= i < j < s.len() ==> order_key((#[trigger] s[i]).fitness) >= order_key((#[trigger] s[j]).fitness)
}

/// Whether individuals of equal fitness stand in `b` in the order in which
/// they stand in `a`.
pub open spec fn same_order_among_equals(a: Seq<Individual>, b: Seq<Individual>) -> bool {
    forall|key: int| #[trigger] a.filter(with_key(key)) == b.filter(with_key(key))
}

/// A choice that nothing of a sequence meets chooses nothing.
pub proof fn lemma_filter_nothing<A>(s: Seq<A>, pred: spec_fn(A) -> bool)
    requires
        forall|i: int| 0 <= i < s.len() ==> !pred(#[trigger] s[i]),
    ensures
        s.filter(pred) == Seq::<A>::empty(),
{
    let chosen = s.filter(pred);
    if chosen.len() > 0 {
        s.lemma_filter_pred(pred, 0);
        assert(chosen.contains(chosen[0]));
        s.lemma_filter_contains_rev(pred, chosen[0]);
        let at = choose|at: int| 0 <= at < s.len() && s[at] == chosen[0];
        assert(!pred(s[at]));
    }
    assert(chosen =~= Seq::<A>::empty());
}

/// Moving an individual forward past others of different fitness leaves the
/// order among individuals of equal fitness as it was.
pub proof fn lemma_move_keeps_order(s: Seq<Individual>, from: int, to: int)
    requires
        0 <= to <= from < s.len(),
        forall|m: int| to <= m < from ==> order_key((#[trigger] s[m]).fitness) != order_key(s[from].fitness),
    ensures
        same_order_among_equals(s, s.remove(from).insert(to, s[from])),
{
    let moved = s.remove(from).insert(to, s[from]);
    let head = s.subrange(0, to);
    let passed = s.subrange(to, from);
    let one = seq![s[from]];
    let rest = s.subrange(from + 1, s.len() as int);
    assert(s =~= head + passed + one + rest);
    assert(moved =~= head + one + passed + rest);
    assert forall|key: int| #[trigger] s.filter(with_key(key)) == moved.filter(with_key(key)) by {
        let pred = with_key(key);
        Seq::filter_distributes_over_add(head, passed, pred);
        Seq::filter_distributes_over_add(head + passed, one, pred);
        Seq::filter_distributes_over_add(head + passed + one, rest, pred);
        Seq::filter_distributes_over_add(head, one, pred);
        Seq::filter_distributes_over_add(head + one, passed, pred);
        Seq::filter_distributes_over_add(head + one + passed, rest, pred);
        if key == order_key(s[from].fitness) {
            assert forall|i: int| 0 <= i < passed.len() implies !pred(#[trigger] passed[i]) by {
                assert(passed[i] == s[to + i]);
            }
            lemma_filter_nothing(passed, pred);
            assert(head.filter(pred) + passed.filter(pred) + one.filter(pred) =~= head.filter(pred) + one.filter(
                pred,
            ) + passed.filter(pred));
        } else {
            lemma_filter_nothing(one, pred);
            assert(head.filter(pred) + passed.filter(pred) + one.filter(pred) =~= head.filter(pred) + one.filter(
                pred,
            ) + passed.filter(pred));
        }
    }
}

/// Sorts the individuals by fitness, the fittest first. Individuals of equal
/// fitness keep their order. Where there are two or more, no fitness may be
/// a NaN.
pub fn sort_individuals_by_fitness(individuals: &mut Vec<Individual>)
    requires
        old(individuals)@.len() >= 2 ==> all_numbers(old(individuals)@),
    ensures
        ranked(final(individuals)@),
        final(individuals)@.to_multiset() == old(individuals)@.to_multiset(),
        same_order_among_equals(old(individuals)@, final(individuals)@),
{
    let ghost start = individuals@;
    let mut i: usize = 1;
    while i < individuals.len()
        invariant
            1 <= i,
            individuals.len() == start.len(),
            individuals.len() >= 2 ==> all_numbers(individuals@),
            individuals@.to_multiset() == start.to_multiset(),
            same_order_among_equals(start, individuals@),
            forall|a: int, b: int|
                0 <= a < b < i && b < individuals.len() ==> order_key((#[trigger] individuals[a]).fitness)
                    >= order_key((#[trigger] individuals[b]).fitness),
        decreases individuals.len() - i,
    {
        let fitness = individuals[i].fitness;
        let mut to: usize = 0;
        while to < i && !greater(fitness, individuals[to].fitness)
            invariant
                to <= i < individuals.len(),
                fitness == individuals[i as int].fitness,
                all_numbers(individuals@),
                forall|m: int| 0 <= m < to ==> order_key((#[trigger] individuals[m]).fitness) >= order_key(fitness),
            decreases i - to,
        {
            to += 1;
        }
        if to < i {
            let ghost before = individuals@;
            let moving = individuals.remove(i);
            individuals.insert(to, moving);
            proof {
                let after = individuals@;
                assert(after == before.remove(i as int).insert(to as int, before[i as int]));
                assert forall|m: int| to <= m < i implies order_key((#[trigger] before[m]).fitness) != order_key(
                    before[i as int].fitness,
                ) by {
                    if m > to {
                        assert(order_key(before[to as int].fitness) >= order_key(before[m].fitness));
                    }
                }
                lemma_move_keeps_order(before, i as int, to as int);
                assert forall|key: int| #[trigger] start.filter(with_key(key)) == after.filter(with_key(key)) by {
                    assert(start.filter(with_key(key)) == before.filter(with_key(key)));
                    assert(before.filter(with_key(key)) == after.filter(with_key(key)));
                }
                vstd::seq_lib::to_multiset_remove(before, i as int);
                vstd::seq_lib::to_multiset_insert(before.remove(i as int), to as int, before[i as int]);
                before.to_multiset_ensures();
                assert(before.to_multiset().count(before[i as int]) > 0) by {
                    assert(before.contains(before[i as int]));
                }
                assert(after.to_multiset() =~= before.to_multiset());
                assert forall|k: int| 0 <= k < after.len() implies !is_nan((#[trigger] after[k]).fitness) by {
                    if k < to {
                        assert(after[k] == before[k]);
                    } else if k == to {
                        assert(after[k] == before[i as int]);
                    } else if k <= i {
                        assert(after[k] == before[k - 1]);
                    } else {
                        assert(after[k] == before[k]);
                    }
                }
                assert forall|a: int, b: int| 0 <= a < b < i + 1 && b < after.len() implies order_key(
                    (#[trigger] after[a]).fitness,
                ) >= order_key((#[trigger] after[b]).fitness) by {
                    let pa = if a < to { a } else if a == to { i as int } else { a - 1 };
                    let pb = if b < to { b } else if b == to { i as int } else { b - 1 };
                    assert(after[a] == before[pa]);
                    assert(after[b] == before[pb]);
                    if a < to && b > to {
                        assert(order_key(before[a].fitness) >= order_key(before[pb].fitness));
                    }
                    if a == to {
                        assert(order_key(before[to as int].fitness) >= order_key(before[pb].fitness)) by {
                            if pb > to {
                                assert(order_key(before[to as int].fitness) >= order_key(before[pb].fitness));
                            }
                        }
                    }
                    if a > to {
                        assert(order_key(before[pa].fitness) >= order_key(before[pb].fitness));
                    }
                }
            }
        }
        i += 1;
    }
}

/// The individuals of one generation, and a copy of the fittest individual
/// of the generation that was ranked last.
pub struct Population {
    pub individuals: Vec<Individual>,
    pub best: Option<Individual>,
}

/// Whether one individual has the genes and the fitness of the other.
pub open spec fn copy_of(copy: Individual, of: Individual) -> bool {
    copy.fitness == of.fitness && copy.genome@ == of.genome@
}

/// Whether every genome is complete.
pub open spec fn all_complete(s: Seq<Individual>) -> bool {
    forall|i: int| 0 <= i < s.len() ==> (#[trigger] s[i]).genome@.complete()
}

/// Whether every genome is well-formed and free of cycles.
pub open spec fn all_sound(s: Seq<Individual>) -> bool {
    forall|i: int|
        0 <= i < s.len() ==> (#[trigger] s[i]).genome@.well_formed() && acyclic(s[i].genome@.links)
}

/// Whether in every genome the id of the next new neuron is free.
pub open spec fn all_free(s: Seq<Individual>) -> bool {
    forall|i: int| 0 <= i < s.len() ==> (#[trigger] s[i]).genome@.next_id_free()
}

/// Whether `child` can come of the two parents by crossover and one
/// mutation with a value that `draw` can return.
pub open spec fn bred_from<F: Fn() -> u32>(
    draw: &F,
    dominant: GenomeView,
    recessive: GenomeView,
    child: GenomeView,
) -> bool {
    exists|middle: GenomeView, kind: MutationsType, value: u32, applied: bool|
        crossed(dominant, recessive, middle) && call_ensures(draw, (), value) && #[trigger] mutation_outcome(
            kind,
            middle,
            child,
            value,
            applied,
        )
}

/// Whether every fitness is a value that `evaluate` can return for the
/// individual's genome.
pub open spec fn all_evaluated<E: Fn(&Genome) -> u32>(evaluate: &E, s: Seq<Individual>) -> bool {
    forall|i: int| 0 <= i < s.len() ==> call_ensures(evaluate, (&s[i].genome,), (#[trigger] s[i]).fitness)
}

/// Whether `evaluated` can be what an evaluation makes of `given`: the same
/// genomes in the same order, each with a fitness that `evaluate` can return
/// for it.
pub open spec fn evaluation_of<E: Fn(&Genome) -> u32>(
    evaluate: &E,
    given: Seq<Individual>,
    evaluated: Seq<Individual>,
) -> bool {
    &&& evaluated.len() == given.len()
    &&& forall|i: int| 0 <= i < evaluated.len() ==> (#[trigger] evaluated[i]).genome == given[i].genome
    &&& all_evaluated(evaluate, evaluated)
}

/// Whether `result` is the ranking of `evaluated`: the same individuals,
/// the fittest first, those of equal fitness in the order they had.
pub open spec fn ranking_of(evaluated: Seq<Individual>, result: Seq<Individual>) -> bool {
    &&& result.to_multiset() == evaluated.to_multiset()
    &&& ranked(result)
    &&& same_order_among_equals(evaluated, result)
}

/// Whether `child` can come of two of the first `survivors` individuals of
/// `pool`, the same one twice not excluded.
pub open spec fn bred_from_pool<F: Fn() -> u32>(
    draw: &F,
    pool: Seq<Individual>,
    survivors: int,
    child: GenomeView,
) -> bool {
    exists|a: int, b: int|
        0 <= a < survivors && 0 <= b < survivors && #[trigger] bred_from(
            draw,
            pool[a].genome@,
            pool[b].genome@,
            child,
        )
}

/// Whether `next` can be bred from the first `survivors` of `ranked_now`:
/// every one of its individuals comes of two of them.
pub open spec fn generation_bred<F: Fn() -> u32>(
    draw: &F,
    ranked_now: Seq<Individual>,
    survivors: int,
    next: Seq<Individual>,
) -> bool {
    forall|i: int|
        0 <= i < next.len() ==> bred_from_pool(draw, ranked_now, survivors, (#[trigger] next[i]).genome@)
}

/// Whether `result` can be the population after `generations` generations
/// that began with `start`. After one generation it is the ranking of an
/// evaluation of `start`. After more, it is the ranking of an evaluation of
/// a population of `population_size` individuals that was bred from the
/// first `survivors` of the population after one generation less.
pub open spec fn evolved<E: Fn(&Genome) -> u32, F: Fn() -> u32>(
    evaluate: &E,
    draw: &F,
    start: Seq<Individual>,
    survivors: int,
    population_size: int,
    generations: nat,
    result: Seq<Individual>,
) -> bool
    decreases generations,
{
    if generations == 0 {
        false
    } else if generations == 1 {
        exists|evaluated: Seq<Individual>| #[trigger]
            evaluation_of(evaluate, start, evaluated) && ranking_of(evaluated, result)
    } else {
        exists|before: Seq<Individual>, bred: Seq<Individual>, evaluated: Seq<Individual>|
            {
                &&& evolved(evaluate, draw, start, survivors, population_size, (generations - 1) as nat, before)
                &&& bred.len() == population_size
                &&& #[trigger] generation_bred(draw, before, survivors, bred)
                &&& #[trigger] evaluation_of(evaluate, bred, evaluated)
                &&& ranking_of(evaluated, result)
            }
    }
}

impl Population {
    /// A population without individuals.
    pub fn new() -> (r: Population)
        ensures
            r.individuals@.len() == 0,
            r.best is None,
    {
        Population { individuals: Vec::new(), best: None }
    }

    /// Adds `population_size` fresh individuals: fully connected genomes of
    /// the given arity under the next ids, with fitness zero.
    pub fn populate<F: Fn() -> u32>(
        &mut self,
        ids: &mut GenomeIds,
        population_size: usize,
        num_inputs: i32,
        num_outputs: i32,
        draw: &F,
    )
        requires
            old(ids).last + population_size <= i32::MAX,
            call_requires(draw, ()),
        ensures
            final(ids).last == old(ids).last + population_size,
            final(self).best == old(self).best,
            final(self).individuals@.len() == old(self).individuals@.len() + population_size,
            final(self).individuals@.take(old(self).individuals@.len() as int) == old(self).individuals@,
            forall|i: int|
                old(self).individuals@.len() <= i < final(self).individuals@.len() ==> {
                    let made = #[trigger] final(self).individuals@[i];
                    &&& made.fitness == ZERO
                    &&& made.genome.id == old(ids).last + 1 + (i - old(self).individuals@.len())
                    &&& fully_connected(made.genome@, num_inputs, num_outputs)
                    &&& drawn_by(draw, made.genome@)
                    &&& acyclic(made.genome@.links)
                    &&& made.genome@.next_id_free()
                    &&& num_inputs >= 0 && num_outputs >= 0 ==> made.genome@.well_formed()
                },
    {
        let ghost start = self.individuals@;
        let ghost first = ids.last;
        let mut made: usize = 0;
        while made < population_size
            invariant
                made <= population_size,
                first + population_size <= i32::MAX,
                ids.last == first + made,
                call_requires(draw, ()),
                self.best == old(self).best,
                self.individuals@.len() == start.len() + made,
                self.individuals@.take(start.len() as int) == start,
                forall|i: int|
                    start.len() <= i < self.individuals@.len() ==> {
                        let one = #[trigger] self.individuals@[i];
                        &&& one.fitness == ZERO
                        &&& one.genome.id == first + 1 + (i - start.len())
                        &&& fully_connected(one.genome@, num_inputs, num_outputs)
                    &&& drawn_by(draw, one.genome@)
                        &&& drawn_by(draw, one.genome@)
                        &&& acyclic(one.genome@.links)
                    &&& one.genome@.next_id_free()
                        &&& one.genome@.next_id_free()
                        &&& num_inputs >= 0 && num_outputs >= 0 ==> one.genome@.well_formed()
                    },
            decreases population_size - made,
        {
            let ghost so_far = self.individuals@;
            let genome = Genome::new(ids, num_inputs, num_outputs, draw);
            self.individuals.push(Individual { genome, fitness: ZERO });
            proof {
                assert(self.individuals@.take(start.len() as int) =~= so_far.take(start.len() as int));
                assert forall|i: int| start.len() <= i < self.individuals@.len() implies {
                    let one = #[trigger] self.individuals@[i];
                    &&& one.fitness == ZERO
                    &&& one.genome.id == first + 1 + (i - start.len())
                    &&& fully_connected(one.genome@, num_inputs, num_outputs)
                    &&& drawn_by(draw, one.genome@)
                    &&& acyclic(one.genome@.links)
                    &&& one.genome@.next_id_free()
                    &&& num_inputs >= 0 && num_outputs >= 0 ==> one.genome@.well_formed()
                } by {
                    if i < so_far.len() {
                        assert(self.individuals@[i] == so_far[i]);
                    }
                }
            }
            made += 1;
        }
    }

    /// Breeds the next generation from the first `survivors` individuals,
    /// which are the fittest when the population is ranked. Each of the
    /// `population_size` offspring comes of two survivors, picked with equal
    /// chances and not excluding one another, by crossover and one mutation
    /// with a value that `draw` returned; its fitness is zero. Offspring of
    /// complete genomes are complete. They are well-formed and free of
    /// cycles if the survivors are and have the id of their next neuron free.
    pub fn reproduce<F: Fn() -> u32>(
        &self,
        ids: &mut GenomeIds,
        survivors: usize,
        population_size: usize,
        draw: &F,
    ) -> (offspring: Vec<Individual>)
        requires
            1 <= survivors <= self.individuals@.len(),
            old(ids).last + population_size <= i32::MAX,
            call_requires(draw, ()),
        ensures
            final(ids).last == old(ids).last + population_size,
            offspring@.len() == population_size,
            forall|i: int|
                0 <= i < offspring@.len() ==> {
                    let child = #[trigger] offspring@[i];
                    &&& child.fitness == ZERO
                    &&& child.genome.id == old(ids).last + 1 + i
                    &&& bred_from_pool(draw, self.individuals@, survivors as int, child.genome@)
                },
            all_complete(self.individuals@.take(survivors as int)) ==> all_complete(offspring@),
            all_sound(self.individuals@.take(survivors as int)) && all_free(
                self.individuals@.take(survivors as int),
            ) ==> all_sound(offspring@),
    {
        let ghost first = ids.last;
        let ghost pool = self.individuals@.take(survivors as int);
        let mut offspring: Vec<Individual> = Vec::new();
        let mut made: usize = 0;
        while made < population_size
            invariant
                made <= population_size,
                1 <= survivors <= self.individuals@.len(),
                pool == self.individuals@.take(survivors as int),
                first + population_size <= i32::MAX,
                ids.last == first + made,
                call_requires(draw, ()),
                offspring@.len() == made,
                forall|i: int|
                    0 <= i < offspring@.len() ==> {
                        let child = #[trigger] offspring@[i];
                        &&& child.fitness == ZERO
                        &&& child.genome.id == first + 1 + i
                        &&& bred_from_pool(draw, self.individuals@, survivors as int, child.genome@)
                    },
                all_complete(pool) ==> all_complete(offspring@),
                all_sound(pool) && all_free(pool) ==> all_sound(offspring@),
            decreases population_size - made,
        {
            let ghost so_far = offspring@;
            let a = random_index(survivors);
            let b = random_index(survivors);
            let dominant = &self.individuals[a];
            let recessive = &self.individuals[b];
            let mut genome = crossover(dominant, recessive, ids);
            let ghost middle = genome@;
            let value = draw();
            let applied = mutate(&mut genome, value);
            proof {
                let kind = choose|kind: MutationsType| #[trigger]
                    mutation_outcome(kind, middle, genome@, value, applied is Some);
                assert(bred_from(draw, dominant.genome@, recessive.genome@, genome@)) by {
                    assert(crossed(dominant.genome@, recessive.genome@, middle) && call_ensures(draw, (), value)
                        && mutation_outcome(
                        kind,
                        middle,
                        genome@,
                        value,
                        applied is Some,
                    ));
                }
                assert(pool[a as int] == self.individuals@[a as int]);
            }
            let ghost bred = genome@;
            offspring.push(Individual { genome, fitness: ZERO });
            proof {
                assert forall|i: int| 0 <= i < offspring@.len() implies {
                    let child = #[trigger] offspring@[i];
                    &&& child.fitness == ZERO
                    &&& child.genome.id == first + 1 + i
                    &&& bred_from_pool(draw, self.individuals@, survivors as int, child.genome@)
                } by {
                    if i < so_far.len() {
                        assert(offspring@[i] == so_far[i]);
                    } else {
                        assert(offspring@[i].genome@ == bred);
                        assert(0 <= a < survivors && 0 <= b < survivors && bred_from(
                            draw,
                            self.individuals@[a as int].genome@,
                            self.individuals@[b as int].genome@,
                            bred,
                        ));
                    }
                }
                if all_complete(pool) {
                    assert forall|i: int| 0 <= i < offspring@.len() implies (
                    #[trigger] offspring@[i]).genome@.complete() by {
                        if i < so_far.len() {
                            assert(offspring@[i] == so_far[i]);
                        } else {
                            assert(offspring@[i].genome@ == bred);
                        }
                    }
                }
                if all_sound(pool) && all_free(pool) {
                    assert forall|i: int| 0 <= i < offspring@.len() implies (
                    #[trigger] offspring@[i]).genome@.well_formed() && acyclic(offspring@[i].genome@.links) by {
                        if i < so_far.len() {
                            assert(offspring@[i] == so_far[i]);
                        } else {
                            assert(offspring@[i].genome@ == bred);
                        }
                    }
                }
            }
            made += 1;
        }
        offspring
    }

    /// Evaluates every individual: its fitness becomes what `evaluate`
    /// returns for its genome.
    pub fn evaluate_all<E: Fn(&Genome) -> u32>(&mut self, evaluate: &E)
        requires
            forall|g: &Genome| call_requires(evaluate, (g,)),
        ensures
            final(self).best == old(self).best,
            final(self).individuals@.len() == old(self).individuals@.len(),
            forall|i: int|
                0 <= i < final(self).individuals@.len() ==> {
                    let one = #[trigger] final(self).individuals@[i];
                    &&& one.genome == old(self).individuals@[i].genome
                    &&& call_ensures(evaluate, (&one.genome,), one.fitness)
                },
    {
        let mut i: usize = 0;
        while i < self.individuals.len()
            invariant
                i <= self.individuals.len(),
                forall|g: &Genome| call_requires(evaluate, (g,)),
                self.best == old(self).best,
                self.individuals@.len() == old(self).individuals@.len(),
                forall|k: int|
                    0 <= k < self.individuals@.len() ==> (#[trigger] self.individuals@[k]).genome
                        == old(self).individuals@[k].genome,
                forall|k: int|
                    0 <= k < i ==> call_ensures(
                        evaluate,
                        (&self.individuals@[k].genome,),
                        (#[trigger] self.individuals@[k]).fitness,
                    ),
            decreases self.individuals.len() - i,
        {
            let fitness = evaluate(&self.individuals[i].genome);
            self.individuals[i].fitness = fitness;
            i += 1;
        }
    }

    /// Ranks the individuals, the fittest first, and records a copy of the
    /// fittest as the best; without individuals the best stays what it was.
    /// Where there are two or more individuals, no fitness may be a NaN.
    pub fn rank(&mut self)
        requires
            old(self).individuals@.len() >= 2 ==> all_numbers(old(self).individuals@),
        ensures
            ranking_of(old(self).individuals@, final(self).individuals@),
            final(self).individuals@.len() == old(self).individuals@.len(),
            final(self).individuals@.len() > 0 ==> match final(self).best {
                Some(best) => copy_of(best, final(self).individuals@[0]),
                None => false,
            },
            final(self).individuals@.len() == 0 ==> final(self).best == old(self).best,
    {
        sort_individuals_by_fitness(&mut self.individuals);
        proof {
            vstd::seq_lib::to_multiset_len(self.individuals@);
            vstd::seq_lib::to_multiset_len(old(self).individuals@);
        }
        if self.individuals.len() > 0 {
            self.best = Some(self.individuals[0].clone());
        }
    }

    /// Runs the evolution for `num_generations` generations. In each one
    /// every individual is evaluated, the population is ranked and a copy
    /// of the fittest is recorded; after every generation but the last, the
    /// population is replaced by the offspring of its first `survivors`
    /// individuals. The best individual is not put back among them.
    /// Wherever two or more individuals are ranked, `evaluate` must not
    /// return a NaN.
    pub fn run<E: Fn(&Genome) -> u32, F: Fn() -> u32>(
        &mut self,
        evaluate: &E,
        num_generations: i32,
        ids: &mut GenomeIds,
        survivors: usize,
        population_size: usize,
        draw: &F,
    )
        requires
            1 <= survivors <= old(self).individuals@.len(),
            survivors <= population_size,
            num_generations > 1 ==> old(ids).last + (num_generations - 1) * population_size <= i32::MAX,
            forall|g: &Genome| call_requires(evaluate, (g,)),
            old(self).individuals@.len() >= 2 || (num_generations >= 2 && population_size >= 2) ==> forall|
                g: &Genome,
                fitness: u32,
            | call_ensures(evaluate, (g,), fitness) ==> !is_nan(fitness),
            call_requires(draw, ()),
        ensures
            num_generations <= 0 ==> {
                &&& final(self).individuals@ == old(self).individuals@
                &&& final(self).best == old(self).best
                &&& final(ids).last == old(ids).last
            },
            num_generations >= 1 ==> {
                &&& final(ids).last == old(ids).last + (num_generations - 1) * population_size
                &&& evolved(
                    evaluate,
                    draw,
                    old(self).individuals@,
                    survivors as int,
                    population_size as int,
                    num_generations as nat,
                    final(self).individuals@,
                )
                &&& final(self).individuals@.len() == if num_generations == 1 {
                    old(self).individuals@.len()
                } else {
                    population_size as nat
                }
                &&& ranked(final(self).individuals@)
                &&& all_evaluated(evaluate, final(self).individuals@)
                &&& match final(self).best {
                    Some(best) => copy_of(best, final(self).individuals@[0]),
                    None => false,
                }
                &&& all_complete(old(self).individuals@) ==> all_complete(final(self).individuals@)
            },
    {
        let ghost first = ids.last;
        let ghost start = self.individuals@;
        let ghost mut before: Seq<Individual> = Seq::empty();
        let mut generation: i32 = 0;
        assert(0 * population_size == 0) by (nonlinear_arith);
        while generation < num_generations
            invariant
                0 <= generation,
                generation <= num_generations || generation == 0,
                1 <= survivors <= self.individuals@.len(),
                survivors <= population_size,
                num_generations > 1 ==> first + (num_generations - 1) * population_size <= i32::MAX,
                forall|g: &Genome| call_requires(evaluate, (g,)),
                start.len() >= 2 || (num_generations >= 2 && population_size >= 2) ==> forall|
                    g: &Genome,
                    fitness: u32,
                | call_ensures(evaluate, (g,), fitness) ==> !is_nan(fitness),
                call_requires(draw, ()),
                generation == 0 ==> self.individuals@ == start && self.best == old(self).best && ids.last == first,
                0 < generation < num_generations ==> {
                    &&& ids.last == first + generation * population_size
                    &&& self.individuals@.len() == population_size
                    &&& evolved(
                        evaluate,
                        draw,
                        start,
                        survivors as int,
                        population_size as int,
                        generation as nat,
                        before,
                    )
                    &&& generation_bred(draw, before, survivors as int, self.individuals@)
                },
                0 < generation == num_generations ==> {
                    &&& ids.last == first + (num_generations - 1) * population_size
                    &&& evolved(
                        evaluate,
                        draw,
                        start,
                        survivors as int,
                        population_size as int,
                        num_generations as nat,
                        self.individuals@,
                    )
                    &&& self.individuals@.len() == if num_generations == 1 {
                        start.len()
                    } else {
                        population_size as nat
                    }
                    &&& ranked(self.individuals@)
                    &&& all_evaluated(evaluate, self.individuals@)
                    &&& match self.best {
                        Some(best) => copy_of(best, self.individuals@[0]),
                        None => false,
                    }
                },
                all_complete(start) ==> all_complete(self.individuals@),
            decreases num_generations - generation,
        {
            let ghost entered = self.individuals@;
            self.evaluate_all(evaluate);
            let ghost evaluated = self.individuals@;
            proof {
                assert(evaluation_of(evaluate, entered, evaluated));
                if evaluated.len() >= 2 {
                    assert forall|i: int| 0 <= i < evaluated.len() implies !is_nan(
                        (#[trigger] evaluated[i]).fitness,
                    ) by {
                        assert(call_ensures(evaluate, (&evaluated[i].genome,), evaluated[i].fitness));
                    }
                }
                if all_complete(start) {
                    assert forall|i: int| 0 <= i < evaluated.len() implies (
                    #[trigger] evaluated[i]).genome@.complete() by {
                        assert(evaluated[i].genome == entered[i].genome);
                    }
                }
            }
            self.rank();
            let ghost ranked_now = self.individuals@;
            proof {
                lemma_rank_keeps(evaluated, ranked_now);
                lemma_rank_keeps_evaluated(evaluate, evaluated, ranked_now);
                let n = (generation + 1) as nat;
                assert((n - 1) as nat == generation as nat);
                if generation == 0 {
                    assert(evaluation_of(evaluate, start, evaluated) && ranking_of(evaluated, ranked_now));
                } else {
                    assert(evolved(
                        evaluate,
                        draw,
                        start,
                        survivors as int,
                        population_size as int,
                        (n - 1) as nat,
                        before,
                    ) && entered.len() == population_size && generation_bred(draw, before, survivors as int, entered)
                        && evaluation_of(evaluate, entered, evaluated) && ranking_of(evaluated, ranked_now));
                }
                assert(evolved(evaluate, draw, start, survivors as int, population_size as int, n, ranked_now));
            }
            if generation < num_generations - 1 {
                proof {
                    assert((generation + 1) * population_size == generation * population_size + population_size)
                        by (nonlinear_arith);
                    assert((generation + 1) * population_size <= (num_generations - 1) * population_size)
                        by (nonlinear_arith)
                        requires
                            generation + 1 <= num_generations - 1,
                            population_size >= 0,
                    ;
                    if all_complete(ranked_now) {
                        assert forall|i: int| 0 <= i < survivors implies (#[trigger] ranked_now.take(
                            survivors as int,
                        )[i]).genome@.complete() by {
                            assert(ranked_now.take(survivors as int)[i] == ranked_now[i]);
                        }
                    }
                }
                let offspring = self.reproduce(ids, survivors, population_size, draw);
                proof {
                    assert(generation_bred(draw, ranked_now, survivors as int, offspring@));
                    before = ranked_now;
                }
                self.individuals = offspring;
            } else {
                proof {
                    assert(generation * population_size == (num_generations - 1) * population_size)
                        by (nonlinear_arith)
                        requires
                            generation == num_generations - 1,
                    ;
                }
            }
            generation += 1;
        }
    }
}

/// Ranking keeps every fitness a value of its genome.
pub proof fn lemma_rank_keeps_evaluated<E: Fn(&Genome) -> u32>(
    evaluate: &E,
    before: Seq<Individual>,
    after: Seq<Individual>,
)
    requires
        after.to_multiset() == before.to_multiset(),
        all_evaluated(evaluate, before),
    ensures
        all_evaluated(evaluate, after),
{
    before.to_multiset_ensures();
    after.to_multiset_ensures();
    assert forall|i: int| 0 <= i < after.len() implies call_ensures(
        evaluate,
        (&after[i].genome,),
        (#[trigger] after[i]).fitness,
    ) by {
        assert(after.contains(after[i]));
        assert(after.to_multiset().count(after[i]) > 0);
        assert(before.contains(after[i]));
        let at = choose|at: int| 0 <= at < before.len() && before[at] == after[i];
        assert(call_ensures(evaluate, (&before[at].genome,), before[at].fitness));
    }
}

/// What holds of every individual holds after ranking: ranking only changes
/// the order.
pub proof fn lemma_rank_keeps(before: Seq<Individual>, after: Seq<Individual>)
    requires
        after.to_multiset() == before.to_multiset(),
    ensures
        all_numbers(before) ==> all_numbers(after),
        all_complete(before) ==> all_complete(after),
{
    before.to_multiset_ensures();
    after.to_multiset_ensures();
    assert forall|i: int| 0 <= i < after.len() implies before.contains(#[trigger] after[i]) by {
        assert(after.contains(after[i]));
        assert(after.to_multiset().count(after[i]) > 0);
    }
    if all_numbers(before) {
        assert forall|i: int| 0 <= i < after.len() implies !is_nan((#[trigger] after[i]).fitness) by {
            let at = choose|at: int| 0 <= at < before.len() && before[at] == after[i];
        }
    }
    if all_complete(before) {
        assert forall|i: int| 0 <= i < after.len() implies (#[trigger] after[i]).genome@.complete() by {
            let at = choose|at: int| 0 <= at < before.len() && before[at] == after[i];
        }
    }
}

} // verus!
