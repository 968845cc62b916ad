//! The structural mutations of a genome: adding and removing links and
//! neurons. Each one either applies, and says so with `Some(())`, or leaves
//! the structure as it is and returns `None`.

use std::collections::HashSet;
use vstd::prelude::*;
use crate::genome::{
    lemma_filter_keeps_distinct, lemma_same_ids_well_formed, Genome, GenomeView, LinkGene, LinkID, NeuronGene,
};
use crate::graph::{
    acyclic, enabled, is_walk, joins, lemma_enabled_subgraph, lemma_kept_links, lemma_link_closes_no_cycle,
    lemma_missing_shrinks, lemma_no_way_back, lemma_push_one_more_link, lemma_reaches_itself, lemma_reaches_one_more,
    lemma_same_ids_subgraph, lemma_subgraph_acyclic, lemma_subgraph_reaches, lemma_walk_ends_early,
    lemma_walk_stays_inside, missing, reaches,
};
use crate::random::random_index;
use crate::scalar::ONE;

verus! {

broadcast use vstd::std_specs::hash::group_hash_axioms;

/// Tells whether a link from `in_id` to `out_id` would close a cycle: whether
/// `in_id` can be reached from `out_id` along the links, enabled or not. A
/// link from a neuron to itself always would.
pub fn would_create_cycle(links: &Vec<LinkGene>, in_id: i32, out_id: i32) -> (r: bool)
    ensures
        r == reaches(links@, out_id, in_id),
{
    proof {
        lemma_reaches_itself(links@, out_id);
    }
    if in_id == out_id {
        return true;
    }
    let ghost nodes: Seq<i32> = links@.map_values(|l: LinkGene| l.id.out_id).push(out_id);
    let mut visited: HashSet<i32> = HashSet::new();
    let mut stack: Vec<i32> = Vec::new();
    stack.push(out_id);
    assert(stack@[0] == out_id);
    assert(nodes[links@.len() as int] == out_id);
    while stack.len() > 0
        invariant
            nodes == links@.map_values(|l: LinkGene| l.id.out_id).push(out_id),
            forall|k: int|
                0 <= k < stack.len() ==> reaches(links@, out_id, #[trigger] stack[k]) && nodes.contains(stack[k]),
            forall|x: i32| #[trigger] visited@.contains(x) ==> x != in_id && nodes.contains(x),
            forall|i: int|
                0 <= i < links.len() && visited@.contains((#[trigger] links[i]).id.in_id) ==> visited@.contains(
                    links[i].id.out_id,
                ) || stack@.contains(links[i].id.out_id),
            visited@.contains(out_id) || stack@.contains(out_id),
        decreases missing(nodes, visited@, nodes.len()), stack.len(),
    {
        let ghost pending = stack@;
        let ghost seen = visited@;
        let curr = stack.pop().unwrap();
        proof {
            assert(curr == pending[pending.len() - 1]);
            assert forall|x: i32| #[trigger] pending.contains(x) implies stack@.contains(x) || x == curr by {
                let k = choose|k: int| 0 <= k < pending.len() && pending[k] == x;
                if k < pending.len() - 1 {
                    assert(stack@[k] == x);
                }
            }
        }
        if visited.contains(&curr) {
            continue ;
        }
        if curr == in_id {
            return true;
        }
        visited.insert(curr);
        proof {
            let at = choose|at: int| 0 <= at < nodes.len() && nodes[at] == curr;
            assert(0 <= at < nodes.len() && !seen.contains(nodes[at]) && visited@.contains(nodes[at]));
            lemma_missing_shrinks(nodes, seen, visited@, nodes.len());
        }
        let mut i: usize = 0;
        while i < links.len()
            invariant
                i <= links.len(),
                nodes == links@.map_values(|l: LinkGene| l.id.out_id).push(out_id),
                reaches(links@, out_id, curr),
                curr != in_id,
                nodes.contains(curr),
                visited@ == seen.insert(curr),
                missing(nodes, visited@, nodes.len()) < missing(nodes, seen, nodes.len()),
                forall|x: i32| #[trigger] seen.contains(x) ==> x != in_id && nodes.contains(x),
                forall|m: int|
                    0 <= m < links.len() && seen.contains((#[trigger] links[m]).id.in_id) ==> seen.contains(
                        links[m].id.out_id,
                    ) || pending.contains(links[m].id.out_id),
                seen.contains(out_id) || pending.contains(out_id),
                forall|k: int|
                    0 <= k < stack.len() ==> reaches(links@, out_id, #[trigger] stack[k]) && nodes.contains(
                        stack[k],
                    ),
                forall|x: i32| #[trigger] pending.contains(x) ==> stack@.contains(x) || x == curr,
                forall|j: int|
                    0 <= j < i && (#[trigger] links[j]).id.in_id == curr ==> stack@.contains(links[j].id.out_id),
            decreases links.len() - i,
        {
            let ghost so_far = stack@;
            if links[i].id.in_id == curr {
                let next = links[i].id.out_id;
                stack.push(next);
                proof {
                    assert(joins(links@, curr, next));
                    lemma_reaches_one_more(links@, out_id, curr, next);
                    assert(nodes[i as int] == next);
                    assert(stack@[stack@.len() - 1] == next);
                    assert forall|x: i32| so_far.contains(x) implies stack@.contains(x) by {
                        let k = choose|k: int| 0 <= k < so_far.len() && so_far[k] == x;
                        assert(stack@[k] == x);
                    }
                }
            }
            i += 1;
        }
    }
    proof {
        if reaches(links@, out_id, in_id) {
            let walk = choose|walk: Seq<i32>|
                #[trigger] is_walk(links@, walk) && walk.first() == out_id && walk.last() == in_id;
            assert forall|i: int|
                0 <= i < links.len() && visited@.contains((#[trigger] links[i]).id.in_id) implies visited@.contains(
                links[i].id.out_id,
            ) by {
                if stack@.contains(links[i].id.out_id) {
                    let k = choose|k: int| 0 <= k < stack@.len() && stack@[k] == links[i].id.out_id;
                }
            }
            if stack@.contains(out_id) {
                let k = choose|k: int| 0 <= k < stack@.len() && stack@[k] == out_id;
            }
            lemma_walk_stays_inside(links@, visited@, walk, walk.len() - 1);
        }
    }
    false
}

/// The part that a neuron can play in a mutation.
#[derive(Clone, Copy, Debug, PartialEq, Eq)]
pub enum Role {
    /// Where a new link starts: an input or a hidden neuron.
    Source,
    /// Where a new link ends: a hidden neuron or an output.
    Target,
    /// What can be removed: a hidden neuron.
    Hidden,
}

/// Whether a neuron with this id can play the part.
pub open spec fn plays(genome: GenomeView, role: Role, id: i32) -> bool {
    match role {
        Role::Source => !genome.is_output(id),
        Role::Target => !genome.is_input(id),
        Role::Hidden => genome.is_hidden(id),
    }
}

/// Tells whether a neuron with this id can play the part.
pub fn can_play(genome: &Genome, role: Role, id: i32) -> (r: bool)
    ensures
        r == plays(genome@, role, id),
{
    let output = 0 <= id && id < genome.num_outputs;
    let input = id < 0 && genome.num_inputs > 0 && id + genome.num_inputs >= 0;
    match role {
        Role::Source => !output,
        Role::Target => !input,
        Role::Hidden => !input && !output,
    }
}

/// Lists the ids of the neurons that can play the part, in gene order.
pub fn candidates(genome: &Genome, role: Role) -> (ids: Vec<i32>)
    ensures
        forall|x: i32| #[trigger] ids@.contains(x) <==> genome@.has_neuron(x) && plays(genome@, role, x),
{
    let mut ids: Vec<i32> = Vec::new();
    let mut i: usize = 0;
    while i < genome.neurons.len()
        invariant
            i <= genome.neurons.len(),
            forall|x: i32| #[trigger] ids@.contains(x) ==> genome@.has_neuron(x) && plays(genome@, role, x),
            forall|j: int|
                0 <= j < i && plays(genome@, role, (#[trigger] genome.neurons[j]).id) ==> ids@.contains(
                    genome.neurons[j].id,
                ),
        decreases genome.neurons.len() - i,
    {
        let id = genome.neurons[i].id;
        let ghost before = ids@;
        if can_play(genome, role, id) {
            ids.push(id);
            proof {
                assert(ids@[ids@.len() - 1] == id);
                assert(genome@.neurons[i as int].id == id);
                assert forall|x: i32| #[trigger] ids@.contains(x) implies genome@.has_neuron(x) && plays(
                    genome@,
                    role,
                    x,
                ) by {
                    let k = choose|k: int| 0 <= k < ids@.len() && ids@[k] == x;
                    if k < before.len() {
                        assert(before[k] == x);
                        assert(before.contains(x));
                    }
                }
                assert forall|j: int|
                    0 <= j < i + 1 && plays(genome@, role, (#[trigger] genome.neurons[j]).id) implies ids@.contains(
                    genome.neurons[j].id,
                ) by {
                    if j < i {
                        let k = choose|k: int| 0 <= k < before.len() && before[k] == genome.neurons[j].id;
                        assert(ids@[k] == genome.neurons[j].id);
                    }
                }
            }
        }
        i += 1;
    }
    proof {
        assert forall|x: i32| genome@.has_neuron(x) && plays(genome@, role, x) implies #[trigger] ids@.contains(
            x,
        ) by {
            let j = choose|j: int| 0 <= j < genome@.neurons.len() && (#[trigger] genome@.neurons[j]).id == x;
            assert(genome.neurons[j].id == x);
        }
    }
    ids
}

/// Picks, with equal chances, one of the neurons that can play the part, or
/// `None` if the genome has no such neuron.
pub fn choose_neuron(genome: &Genome, role: Role) -> (r: Option<i32>)
    ensures
        match r {
            Some(id) => genome@.has_neuron(id) && plays(genome@, role, id),
            None => forall|x: i32| !(#[trigger] genome@.has_neuron(x) && plays(genome@, role, x)),
        },
{
    let ids = candidates(genome, role);
    if ids.len() == 0 {
        proof {
            assert forall|x: i32| !(#[trigger] genome@.has_neuron(x) && plays(genome@, role, x)) by {
                if genome@.has_neuron(x) && plays(genome@, role, x) {
                    assert(ids@.contains(x));
                }
            }
        }
        return None;
    }
    let at = random_index(ids.len());
    assert(ids@.contains(ids@[at as int]));
    Some(ids[at])
}

/// A link gene as it is after it was switched on.
pub open spec fn switched_on(link: LinkGene) -> LinkGene {
    LinkGene { id: link.id, weight: link.weight, is_enabled: true }
}

/// What `add_link_between` does. A link that is there already is switched
/// on, and nothing counts as applied. Otherwise a link that would close a
/// cycle is refused. Otherwise the link is appended, enabled, with the given
/// weight.
pub open spec fn link_added(
    before: GenomeView,
    after: GenomeView,
    in_id: i32,
    out_id: i32,
    weight: u32,
    applied: bool,
) -> bool {
    let id = LinkID { in_id, out_id };
    &&& after.id == before.id
    &&& after.num_inputs == before.num_inputs
    &&& after.num_outputs == before.num_outputs
    &&& after.neurons == before.neurons
    &&& if before.has_link(id) {
        &&& !applied
        &&& exists|i: int| #[trigger]
            before.first_link_at(id, i) && after.links == before.links.update(i, switched_on(before.links[i]))
    } else if reaches(before.links, out_id, in_id) {
        !applied && after.links == before.links
    } else {
        applied && after.links == before.links.push(LinkGene { id, weight, is_enabled: true })
    }
}

/// Adds a link from `in_id` to `out_id`, unless it exists or would close a
/// cycle. The genome stays complete, and stays well-formed, if both
/// neurons are there. No cycle
/// arises among the links, and none among the enabled links when a link is
/// appended.
pub fn add_link_between(genome: &mut Genome, in_id: i32, out_id: i32, weight: u32) -> (r: Option<()>)
    ensures
        link_added(old(genome)@, final(genome)@, in_id, out_id, weight, r is Some),
        old(genome)@.complete() && old(genome)@.has_neuron(in_id) && old(genome)@.has_neuron(out_id)
            ==> final(genome)@.complete(),
        old(genome)@.well_formed() && old(genome)@.has_neuron(in_id) && old(genome)@.has_neuron(out_id)
            ==> final(genome)@.well_formed(),
        acyclic(old(genome)@.links) ==> acyclic(final(genome)@.links),
        r is Some && acyclic(enabled(old(genome)@.links)) ==> acyclic(enabled(final(genome)@.links)),
{
    let id = LinkID { in_id, out_id };
    let ghost before = genome@;
    match genome.link_position(&id) {
        Some(i) => {
            let link = genome.links[i];
            genome.links.set(i, LinkGene { id: link.id, weight: link.weight, is_enabled: true });
            proof {
                let after = genome@;
                assert(before.has_link(id));
                assert(before.first_link_at(id, i as int));
                assert forall|k: int| 0 <= k < after.links.len() implies (#[trigger] after.links[k]).id
                    == before.links[k].id by {}
                assert(after.neurons == before.neurons);
                lemma_same_ids_well_formed(before, after);
                lemma_same_ids_subgraph(after.links, before.links);
                if acyclic(before.links) {
                    lemma_subgraph_acyclic(after.links, before.links);
                }
            }
            None
        },
        None => {
            if would_create_cycle(&genome.links, in_id, out_id) {
                None
            } else {
                let added = LinkGene { id, weight, is_enabled: true };
                genome.links.push(added);
                proof {
                    let after = genome@;
                    assert(after.links == before.links.push(added));
                    lemma_push_one_more_link(before.links, added);
                    if acyclic(before.links) {
                        lemma_link_closes_no_cycle(before.links, after.links, in_id, out_id);
                    }
                    if acyclic(enabled(before.links)) {
                        before.links.lemma_filter_push(added, |l: LinkGene| l.is_enabled);
                        lemma_push_one_more_link(enabled(before.links), added);
                        if reaches(enabled(before.links), out_id, in_id) {
                            lemma_enabled_subgraph(before.links);
                            lemma_subgraph_reaches(enabled(before.links), before.links, out_id, in_id);
                        }
                        lemma_link_closes_no_cycle(enabled(before.links), enabled(after.links), in_id, out_id);
                    }
                    assert(after.neurons == before.neurons);
                    assert(forall|x: i32| after.has_neuron(x) == before.has_neuron(x));
                    if before.distinct_ids() {
                        assert forall|a: int, b: int| 0 <= a < b < after.links.len() implies (
                        #[trigger] after.links[a]).id != (#[trigger] after.links[b]).id by {
                            if b == before.links.len() {
                                assert(before.links[a].id != id);
                            } else {
                                assert(before.links[a].id != before.links[b].id);
                            }
                        }
                    }
                    if before.complete() && before.has_neuron(in_id) && before.has_neuron(out_id) {
                        assert forall|k: int| 0 <= k < after.links.len() implies after.has_neuron(
                            (#[trigger] after.links[k]).id.in_id,
                        ) && after.has_neuron(after.links[k].id.out_id) by {
                            if k < before.links.len() {
                                assert(before.has_neuron(before.links[k].id.in_id));
                                assert(before.has_neuron(before.links[k].id.out_id));
                            } else {
                                assert(after.links[k] == added);
                            }
                        }
                        assert forall|x: i32| after.is_input(x) || after.is_output(x) implies #[trigger] after.has_neuron(
                            x,
                        ) by {
                            assert(before.has_neuron(x));
                        }
                    }
                }
                Some(())
            }
        },
    }
}

/// Whether nothing of the genome has changed.
pub open spec fn untouched(before: GenomeView, after: GenomeView) -> bool {
    after == before
}

/// What every mutation keeps: the genome's id and arity, and that the
/// genome is complete.
pub open spec fn kept_shape(before: GenomeView, after: GenomeView) -> bool {
    &&& after.id == before.id
    &&& after.num_inputs == before.num_inputs
    &&& after.num_outputs == before.num_outputs
    &&& before.complete() ==> after.complete()
}

/// What a mutation keeps that adds no neuron, or adds one under an id that
/// is free: besides the shape, that no id occurs twice, and the absence of
/// cycles.
pub open spec fn kept_sound(before: GenomeView, after: GenomeView) -> bool {
    &&& kept_shape(before, after)
    &&& before.well_formed() ==> after.well_formed()
    &&& before.complete() && acyclic(before.links) ==> acyclic(after.links)
}

/// What `mutate_add_link` does: `add_link_between` for some source and some
/// target among the genome's neurons, or nothing if one of the two is not to
/// be had.
pub open spec fn add_link_outcome(before: GenomeView, after: GenomeView, weight: u32, applied: bool) -> bool {
    ||| {
        &&& !applied
        &&& untouched(before, after)
        &&& (forall|x: i32| !(#[trigger] before.has_neuron(x) && plays(before, Role::Source, x)))
            || (forall|x: i32| !(#[trigger] before.has_neuron(x) && plays(before, Role::Target, x)))
    }
    ||| exists|s: i32, t: i32|
        {
            &&& before.has_neuron(s) && plays(before, Role::Source, s)
            &&& before.has_neuron(t) && plays(before, Role::Target, t)
            &&& #[trigger] link_added(before, after, s, t, weight, applied)
        }
}

/// Adds a link between a source and a target that are picked by chance, each
/// with equal chances among the neurons that qualify.
pub fn mutate_add_link(genome: &mut Genome, weight: u32) -> (r: Option<()>)
    ensures
        add_link_outcome(old(genome)@, final(genome)@, weight, r is Some),
        kept_sound(old(genome)@, final(genome)@),
        r is Some && acyclic(enabled(old(genome)@.links)) ==> acyclic(enabled(final(genome)@.links)),
{
    let source = match choose_neuron(genome, Role::Source) {
        Some(id) => id,
        None => {
            return None;
        },
    };
    let target = match choose_neuron(genome, Role::Target) {
        Some(id) => id,
        None => {
            return None;
        },
    };
    add_link_between(genome, source, target, weight)
}

/// Whether `after` is `before` without the link at `index`.
pub open spec fn link_removed(before: GenomeView, after: GenomeView, index: int) -> bool {
    &&& after.id == before.id
    &&& after.num_inputs == before.num_inputs
    &&& after.num_outputs == before.num_outputs
    &&& after.neurons == before.neurons
    &&& after.links == before.links.remove(index)
}

/// The first position from which `mutate_remove_link` picks: as many links
/// as the genome has outputs are passed over.
pub open spec fn first_removable(genome: GenomeView) -> int {
    if genome.num_outputs > 0 {
        genome.num_outputs as int
    } else {
        0
    }
}

/// What `mutate_remove_link` does: it removes one link from a position past
/// the first `num_outputs`, or nothing if there is no link there.
pub open spec fn remove_link_outcome(before: GenomeView, after: GenomeView, applied: bool) -> bool {
    if before.links.len() > first_removable(before) {
        applied && exists|i: int|
            first_removable(before) <= i < before.links.len() && #[trigger] link_removed(before, after, i)
    } else {
        !applied && untouched(before, after)
    }
}

/// Removes the link at `index`.
pub fn remove_link_at(genome: &mut Genome, index: usize)
    requires
        index < old(genome).links.len(),
    ensures
        link_removed(old(genome)@, final(genome)@, index as int),
        kept_sound(old(genome)@, final(genome)@),
        acyclic(enabled(old(genome)@.links)) ==> acyclic(enabled(final(genome)@.links)),
{
    let ghost before = genome@;
    genome.links.remove(index);
    proof {
        let after = genome@;
        assert(after.neurons == before.neurons);
        assert forall|k: int| 0 <= k < after.links.len() implies before.links.contains(#[trigger] after.links[k]) by {
            if k < index {
                assert(before.links[k] == after.links[k]);
            } else {
                assert(before.links[k + 1] == after.links[k]);
            }
        }
        lemma_kept_links(after.links, before.links);
        if acyclic(before.links) {
            lemma_subgraph_acyclic(after.links, before.links);
        }
        if acyclic(enabled(before.links)) {
            lemma_subgraph_acyclic(enabled(after.links), enabled(before.links));
        }
        assert(forall|x: i32| after.has_neuron(x) == before.has_neuron(x));
        if before.distinct_ids() {
            assert forall|a: int, b: int| 0 <= a < b < after.links.len() implies (#[trigger] after.links[a]).id != (
            #[trigger] after.links[b]).id by {
                let pa = if a < index { a } else { a + 1 };
                let pb = if b < index { b } else { b + 1 };
                assert(before.links[pa].id != before.links[pb].id);
            }
        }
        if before.complete() {
            assert forall|k: int| 0 <= k < after.links.len() implies after.has_neuron(
                (#[trigger] after.links[k]).id.in_id,
            ) && after.has_neuron(after.links[k].id.out_id) by {
                let pk = if k < index { k } else { k + 1 };
                assert(before.has_neuron(before.links[pk].id.in_id));
                assert(before.has_neuron(before.links[pk].id.out_id));
            }
            assert forall|x: i32| after.is_input(x) || after.is_output(x) implies #[trigger] after.has_neuron(x) by {
                assert(before.has_neuron(x));
            }
        }
    }
}

/// Removes one link, picked with equal chances among those at the positions
/// from `num_outputs` on. The position picked always holds a link: the
/// position behind the last link is never drawn. Nothing happens if no link
/// stands at such a position.
pub fn mutate_remove_link(genome: &mut Genome) -> (r: Option<()>)
    ensures
        remove_link_outcome(old(genome)@, final(genome)@, r is Some),
        kept_sound(old(genome)@, final(genome)@),
        acyclic(enabled(old(genome)@.links)) ==> acyclic(enabled(final(genome)@.links)),
{
    let first: usize = if genome.num_outputs > 0 {
        genome.num_outputs as usize
    } else {
        0
    };
    if genome.links.len() <= first {
        return None;
    }
    let index = first + random_index(genome.links.len() - first);
    remove_link_at(genome, index);
    Some(())
}

/// Whether `after` is `before` with the link at `index` split by a new
/// neuron with the given bias. The new neuron's id is the number of neurons
/// that the genome had. The link is switched on and stays; a link of weight
/// one leads from its source to the new neuron, and a link of the old
/// weight from the new neuron to its target.
pub open spec fn split_by(before: GenomeView, after: GenomeView, index: int, bias: u32) -> bool {
    let split = before.links[index];
    let id = before.neurons.len() as i32;
    &&& after.id == before.id
    &&& after.num_inputs == before.num_inputs
    &&& after.num_outputs == before.num_outputs
    &&& after.neurons == before.neurons.push(NeuronGene { id, bias })
    &&& after.links == before.links.update(index, switched_on(split)).push(
        LinkGene { id: LinkID { in_id: split.id.in_id, out_id: id }, weight: ONE, is_enabled: true },
    ).push(LinkGene { id: LinkID { in_id: id, out_id: split.id.out_id }, weight: split.weight, is_enabled: true })
}

/// What `split_link` does: it splits the link, or does nothing if the
/// number of neurons is no id any more.
pub open spec fn link_split(before: GenomeView, after: GenomeView, index: int, bias: u32, applied: bool) -> bool {
    if before.neurons.len() <= i32::MAX {
        applied && split_by(before, after, index, bias)
    } else {
        !applied && untouched(before, after)
    }
}

/// What `mutate_add_neuron` does: `split_link` at some position, or nothing
/// if there is no link.
pub open spec fn add_neuron_outcome(before: GenomeView, after: GenomeView, bias: u32, applied: bool) -> bool {
    if before.links.len() == 0 {
        !applied && untouched(before, after)
    } else {
        exists|i: int| 0 <= i < before.links.len() && #[trigger] link_split(before, after, i, bias, applied)
    }
}

/// A split keeps the genome complete. If the new neuron's id was free, it
/// also keeps the ids distinct and the links free of cycles.
pub proof fn lemma_split_keeps_sound(before: GenomeView, after: GenomeView, index: int, bias: u32)
    requires
        0 <= index < before.links.len(),
        before.neurons.len() <= i32::MAX,
        split_by(before, after, index, bias),
    ensures
        kept_shape(before, after),
        before.next_id_free() ==> kept_sound(before, after),
{
    let id = before.neurons.len() as i32;
    let split = before.links[index];
    let src = split.id.in_id;
    let dst = split.id.out_id;
    let l0 = before.links.update(index, switched_on(split));
    let first = LinkGene { id: LinkID { in_id: src, out_id: id }, weight: ONE, is_enabled: true };
    let second = LinkGene { id: LinkID { in_id: id, out_id: dst }, weight: split.weight, is_enabled: true };
    let l1 = l0.push(first);
    let l2 = l1.push(second);
    assert(after.links == l2);
    assert forall|x: i32| before.has_neuron(x) implies after.has_neuron(x) by {
        let i = choose|i: int| 0 <= i < before.neurons.len() && (#[trigger] before.neurons[i]).id == x;
        assert(after.neurons[i].id == x);
    }
    assert(after.neurons[before.neurons.len() as int].id == id);
    assert(after.has_neuron(id));
    if before.complete() {
        assert(before.has_neuron(src) && before.has_neuron(dst));
        assert forall|k: int| 0 <= k < after.links.len() implies after.has_neuron(
            (#[trigger] after.links[k]).id.in_id,
        ) && after.has_neuron(after.links[k].id.out_id) by {
            if k < before.links.len() {
                assert(before.has_neuron(before.links[k].id.in_id));
                assert(before.has_neuron(before.links[k].id.out_id));
            }
        }
        assert forall|x: i32| after.is_input(x) || after.is_output(x) implies #[trigger] after.has_neuron(x) by {
            assert(before.has_neuron(x));
        }
        assert forall|i: int| 0 <= i < after.neurons.len() implies (#[trigger] after.neurons[i]).id
            >= -after.num_inputs by {
            if i < before.neurons.len() {
                assert(before.neurons[i].id >= -before.num_inputs);
            }
        }
        assert(after.complete());
    }
    if before.next_id_free() && before.complete() {
        assert(before.has_neuron(src) && before.has_neuron(dst));
        assert forall|k: int| 0 <= k < before.links.len() implies (#[trigger] before.links[k]).id.in_id != id
            && before.links[k].id.out_id != id by {
            assert(before.has_neuron(before.links[k].id.in_id));
            assert(before.has_neuron(before.links[k].id.out_id));
        }
        if before.distinct_ids() {
            assert forall|a: int, b: int| 0 <= a < b < after.neurons.len() implies (
            #[trigger] after.neurons[a]).id != (#[trigger] after.neurons[b]).id by {
                if b == before.neurons.len() {
                    assert(before.neurons[a].id != id);
                } else {
                    assert(before.neurons[a].id != before.neurons[b].id);
                }
            }
            assert forall|a: int, b: int| 0 <= a < b < after.links.len() implies (#[trigger] after.links[a]).id != (
            #[trigger] after.links[b]).id by {
                if b < before.links.len() {
                    assert(before.links[a].id != before.links[b].id);
                } else if a < before.links.len() {
                    assert(before.links[a].id.out_id != id && before.links[a].id.in_id != id);
                }
            }
            assert(after.distinct_ids());
        }
        if acyclic(before.links) {
            assert forall|k: int| 0 <= k < l0.len() implies (#[trigger] l0[k]).id == before.links[k].id by {}
            lemma_same_ids_subgraph(l0, before.links);
            lemma_subgraph_acyclic(l0, before.links);
            assert forall|k: int| 0 <= k < l0.len() implies (#[trigger] l0[k]).id.in_id != id && l0[k].id.out_id
                != id by {
                assert(before.links[k].id.in_id != id);
            }
            lemma_push_one_more_link(l0, first);
            if reaches(l0, id, src) {
                let walk = choose|walk: Seq<i32>|
                    #[trigger] is_walk(l0, walk) && walk.first() == id && walk.last() == src;
                if walk.len() >= 2 {
                    assert(joins(l0, walk[0int], walk[0int + 1]));
                    let k = choose|k: int|
                        0 <= k < l0.len() && (#[trigger] l0[k]).id.in_id == walk[0int] && l0[k].id.out_id
                            == walk[1int];
                    assert(l0[k].id.in_id != id);
                }
            }
            lemma_link_closes_no_cycle(l0, l1, src, id);
            lemma_push_one_more_link(l1, second);
            if reaches(l1, dst, id) {
                let walk = choose|walk: Seq<i32>|
                    #[trigger] is_walk(l1, walk) && walk.first() == dst && walk.last() == id;
                let n = walk.len() as int;
                assert(n >= 2);
                assert(joins(l1, walk[n - 2], walk[n - 2 + 1]));
                if joins(l0, walk[n - 2], id) {
                    let k = choose|k: int|
                        0 <= k < l0.len() && (#[trigger] l0[k]).id.in_id == walk[n - 2] && l0[k].id.out_id == id;
                    assert(l0[k].id.out_id != id);
                }
                assert(walk[n - 2] == src);
                let shorter = walk.drop_last();
                assert forall|i: int| 0 <= i < shorter.len() - 1 implies joins(
                    l1,
                    #[trigger] shorter[i],
                    shorter[i + 1],
                ) by {
                    assert(joins(l1, walk[i], walk[i + 1]));
                }
                assert(is_walk(l1, shorter));
                lemma_walk_ends_early(l0, l1, src, id, shorter, 0);
                assert(l0[index].id.in_id == src && l0[index].id.out_id == dst);
                assert(joins(l0, src, dst));
                lemma_no_way_back(l0, src, dst);
            }
            lemma_link_closes_no_cycle(l1, l2, id, dst);
        }
    }
}

/// Splits the link at `index` by a new neuron with the given bias, whose id
/// is the number of neurons. Nothing happens if that number is no id any
/// more. Where a neuron has that id already, which can be after a neuron
/// was removed, the genome gets a second neuron of that id.
pub fn split_link(genome: &mut Genome, index: usize, bias: u32) -> (r: Option<()>)
    requires
        index < old(genome).links.len(),
    ensures
        link_split(old(genome)@, final(genome)@, index as int, bias, r is Some),
        kept_shape(old(genome)@, final(genome)@),
        old(genome)@.next_id_free() ==> kept_sound(old(genome)@, final(genome)@),
        r is Some <==> old(genome).neurons.len() <= i32::MAX,
{
    let ghost before = genome@;
    if genome.neurons.len() > 0x7fff_ffff {
        return None;
    }
    let id: i32 = genome.neurons.len() as i32;
    let split = genome.links[index];
    genome.links.set(index, LinkGene { id: split.id, weight: split.weight, is_enabled: true });
    genome.neurons.push(NeuronGene { id, bias });
    genome.links.push(LinkGene { id: LinkID { in_id: split.id.in_id, out_id: id }, weight: ONE, is_enabled: true });
    genome.links.push(
        LinkGene { id: LinkID { in_id: id, out_id: split.id.out_id }, weight: split.weight, is_enabled: true },
    );
    proof {
        assert(split_by(before, genome@, index as int, bias));
        lemma_split_keeps_sound(before, genome@, index as int, bias);
    }
    Some(())
}

/// Splits a link, picked with equal chances among all links, by a new
/// neuron with the given bias, whose id is the number of neurons. The link
/// that is split is switched on and stays in the genome. Nothing happens
/// if there is no link. On a genome with a link (and with a number of
/// neurons that is still an id) the neurons become one more and the links
/// two more.
pub fn mutate_add_neuron(genome: &mut Genome, bias: u32) -> (r: Option<()>)
    ensures
        add_neuron_outcome(old(genome)@, final(genome)@, bias, r is Some),
        kept_shape(old(genome)@, final(genome)@),
        old(genome)@.next_id_free() ==> kept_sound(old(genome)@, final(genome)@),
        r is Some <==> old(genome).links.len() > 0 && old(genome).neurons.len() <= i32::MAX,
        r is Some ==> final(genome).neurons.len() == old(genome).neurons.len() + 1 && final(genome).links.len()
            == old(genome).links.len() + 2,
{
    if genome.links.len() == 0 {
        return None;
    }
    let index = random_index(genome.links.len());
    split_link(genome, index, bias)
}

/// The choice of the neurons other than `id`.
pub open spec fn not_neuron(id: i32) -> spec_fn(NeuronGene) -> bool {
    |n: NeuronGene| n.id != id
}

/// The choice of the links that do not touch neuron `id`.
pub open spec fn not_touching(id: i32) -> spec_fn(LinkGene) -> bool {
    |l: LinkGene| l.id.in_id != id && l.id.out_id != id
}

/// Whether `after` is `before` without neuron `id` and without the links
/// that start or end there.
pub open spec fn neuron_removed(before: GenomeView, after: GenomeView, id: i32) -> bool {
    &&& after.id == before.id
    &&& after.num_inputs == before.num_inputs
    &&& after.num_outputs == before.num_outputs
    &&& after.neurons == before.neurons.filter(not_neuron(id))
    &&& after.links == before.links.filter(not_touching(id))
}

/// What `mutate_remove_neuron` does: it removes some hidden neuron, or
/// nothing if there is none.
pub open spec fn remove_neuron_outcome(before: GenomeView, after: GenomeView, applied: bool) -> bool {
    if exists|x: i32| #[trigger] before.has_neuron(x) && plays(before, Role::Hidden, x) {
        applied && exists|id: i32|
            before.has_neuron(id) && plays(before, Role::Hidden, id) && #[trigger] neuron_removed(before, after, id)
    } else {
        !applied && untouched(before, after)
    }
}

proof fn lemma_removal_keeps_sound(before: GenomeView, after: GenomeView, id: i32)
    requires
        neuron_removed(before, after, id),
        before.is_hidden(id),
    ensures
        kept_sound(before, after),
        acyclic(enabled(before.links)) ==> acyclic(enabled(after.links)),
{
    assert forall|k: int| 0 <= k < after.links.len() implies before.links.contains(#[trigger] after.links[k]) by {
        assert(after.links.contains(after.links[k]));
        before.links.lemma_filter_contains_rev(not_touching(id), after.links[k]);
    }
    lemma_kept_links(after.links, before.links);
    if acyclic(before.links) {
        lemma_subgraph_acyclic(after.links, before.links);
    }
    if acyclic(enabled(before.links)) {
        lemma_subgraph_acyclic(enabled(after.links), enabled(before.links));
    }
    if before.distinct_ids() {
        lemma_filter_keeps_distinct(before.links, not_touching(id), |l: LinkGene| l.id);
        lemma_filter_keeps_distinct(before.neurons, not_neuron(id), |n: NeuronGene| n.id);
    }
    if before.complete() {
        assert forall|x: i32| before.has_neuron(x) && x != id implies after.has_neuron(x) by {
            let i = choose|i: int| 0 <= i < before.neurons.len() && (#[trigger] before.neurons[i]).id == x;
            before.neurons.lemma_filter_contains(not_neuron(id), i);
            let at = choose|at: int| 0 <= at < after.neurons.len() && after.neurons[at] == before.neurons[i];
            assert(after.neurons[at].id == x);
        }
        assert forall|k: int| 0 <= k < after.links.len() implies after.has_neuron(
            (#[trigger] after.links[k]).id.in_id,
        ) && after.has_neuron(after.links[k].id.out_id) by {
            before.links.lemma_filter_pred(not_touching(id), k);
            let at = choose|at: int| 0 <= at < before.links.len() && before.links[at] == after.links[k];
            assert(before.has_neuron(before.links[at].id.in_id));
            assert(before.has_neuron(before.links[at].id.out_id));
        }
        assert forall|x: i32| after.is_input(x) || after.is_output(x) implies #[trigger] after.has_neuron(x) by {
            assert(before.has_neuron(x));
        }
        assert forall|i: int| 0 <= i < after.neurons.len() implies (#[trigger] after.neurons[i]).id
            >= -after.num_inputs by {
            assert(after.neurons.contains(after.neurons[i]));
            before.neurons.lemma_filter_contains_rev(not_neuron(id), after.neurons[i]);
            let at = choose|at: int| 0 <= at < before.neurons.len() && before.neurons[at] == after.neurons[i];
            assert(before.neurons[at].id >= -before.num_inputs);
        }
    }
}

/// Removes the neurons with this id and the links that start or end there.
/// Removing a hidden neuron keeps the genome complete, its ids distinct and
/// its links free of cycles.
pub fn remove_neuron_with_id(genome: &mut Genome, id: i32)
    ensures
        neuron_removed(old(genome)@, final(genome)@, id),
        old(genome)@.is_hidden(id) ==> kept_sound(old(genome)@, final(genome)@),
        old(genome)@.is_hidden(id) && acyclic(enabled(old(genome)@.links)) ==> acyclic(
            enabled(final(genome)@.links),
        ),
{
    let ghost before = genome@;
    let mut links: Vec<LinkGene> = Vec::new();
    let mut i: usize = 0;
    while i < genome.links.len()
        invariant
            i <= genome.links.len(),
            genome@ == before,
            links@ == before.links.take(i as int).filter(not_touching(id)),
        decreases genome.links.len() - i,
    {
        proof {
            assert(before.links.take(i + 1) == before.links.take(i as int).push(before.links[i as int]));
            before.links.take(i as int).lemma_filter_push(before.links[i as int], not_touching(id));
        }
        let link = genome.links[i];
        if link.id.in_id != id && link.id.out_id != id {
            links.push(link);
        }
        i += 1;
    }
    let mut neurons: Vec<NeuronGene> = Vec::new();
    let mut j: usize = 0;
    while j < genome.neurons.len()
        invariant
            j <= genome.neurons.len(),
            genome@ == before,
            neurons@ == before.neurons.take(j as int).filter(not_neuron(id)),
        decreases genome.neurons.len() - j,
    {
        proof {
            assert(before.neurons.take(j + 1) == before.neurons.take(j as int).push(before.neurons[j as int]));
            before.neurons.take(j as int).lemma_filter_push(before.neurons[j as int], not_neuron(id));
        }
        let neuron = genome.neurons[j];
        if neuron.id != id {
            neurons.push(neuron);
        }
        j += 1;
    }
    assert(before.links.take(before.links.len() as int) == before.links);
    assert(before.neurons.take(before.neurons.len() as int) == before.neurons);
    genome.links = links;
    genome.neurons = neurons;
    proof {
        if before.is_hidden(id) {
            lemma_removal_keeps_sound(before, genome@, id);
        }
    }
}

/// Removes a hidden neuron, picked with equal chances among the hidden
/// neurons, and the links that start or end there. Nothing happens if the
/// genome has no hidden neuron; whether it has links does not matter.
pub fn mutate_remove_neuron(genome: &mut Genome) -> (r: Option<()>)
    ensures
        remove_neuron_outcome(old(genome)@, final(genome)@, r is Some),
        kept_sound(old(genome)@, final(genome)@),
        acyclic(enabled(old(genome)@.links)) ==> acyclic(enabled(final(genome)@.links)),
{
    match choose_neuron(genome, Role::Hidden) {
        Some(id) => {
            remove_neuron_with_id(genome, id);
            Some(())
        },
        None => None,
    }
}

/// The four structural mutations.
#[derive(Clone, Copy, Debug, PartialEq, Eq)]
pub enum MutationsType {
    AddLink,
    AddNeuron,
    RemoveLink,
    RemoveNeuron,
}

/// What a mutation of the given kind does. `value` is the weight of a new
/// link or the bias of a new neuron.
pub open spec fn mutation_outcome(
    kind: MutationsType,
    before: GenomeView,
    after: GenomeView,
    value: u32,
    applied: bool,
) -> bool {
    match kind {
        MutationsType::AddLink => add_link_outcome(before, after, value, applied),
        MutationsType::AddNeuron => add_neuron_outcome(before, after, value, applied),
        MutationsType::RemoveLink => remove_link_outcome(before, after, applied),
        MutationsType::RemoveNeuron => remove_neuron_outcome(before, after, applied),
    }
}

/// Applies one mutation of the given kind.
pub fn apply_mutation(genome: &mut Genome, kind: MutationsType, value: u32) -> (r: Option<()>)
    ensures
        mutation_outcome(kind, old(genome)@, final(genome)@, value, r is Some),
        kept_shape(old(genome)@, final(genome)@),
        kind != MutationsType::AddNeuron || old(genome)@.next_id_free() ==> kept_sound(
            old(genome)@,
            final(genome)@,
        ),
{
    match kind {
        MutationsType::AddLink => mutate_add_link(genome, value),
        MutationsType::AddNeuron => mutate_add_neuron(genome, value),
        MutationsType::RemoveLink => mutate_remove_link(genome),
        MutationsType::RemoveNeuron => mutate_remove_neuron(genome),
    }
}

/// The kind of mutation that stands at a position of the list from which
/// `mutate` draws.
pub fn kind_at(position: usize) -> (kind: MutationsType)
    ensures
        kind == match position {
            0 => MutationsType::AddLink,
            1 => MutationsType::AddNeuron,
            2 => MutationsType::RemoveLink,
            _ => MutationsType::RemoveNeuron,
        },
{
    if position == 0 {
        MutationsType::AddLink
    } else if position == 1 {
        MutationsType::AddNeuron
    } else if position == 2 {
        MutationsType::RemoveLink
    } else {
        MutationsType::RemoveNeuron
    }
}

/// Applies one structural mutation, each of the four kinds with the same
/// chance. `value` is the weight of a new link or the bias of a new neuron.
/// The genome stays complete. Its ids stay distinct and its links free of
/// cycles unless a neuron is added under an id that is in use.
pub fn mutate(genome: &mut Genome, value: u32) -> (r: Option<()>)
    ensures
        exists|kind: MutationsType| #[trigger]
            mutation_outcome(kind, old(genome)@, final(genome)@, value, r is Some),
        kept_shape(old(genome)@, final(genome)@),
        old(genome)@.next_id_free() ==> kept_sound(old(genome)@, final(genome)@),
{
    let kind = kind_at(random_index(4));
    apply_mutation(genome, kind, value)
}

} // verus!
