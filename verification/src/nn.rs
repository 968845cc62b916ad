//! From a genome to an evaluation plan: which neurons matter, in which order
//! they can be evaluated, and what each one reads.

use std::collections::HashSet;
use vstd::prelude::*;
use crate::genome::{contains_id, Genome, GenomeView, LinkGene};
use crate::graph::{
    acyclic, enabled, is_walk, joins, lemma_enabled_acyclic, lemma_missing_shrinks, lemma_walk_never_repeats, missing,
};

verus! {

broadcast use vstd::std_specs::hash::group_hash_axioms;

/// Whether `n` is no input and some link leads from `n` into `closure`.
pub open spec fn feeds_into(inputs: Seq<i32>, links: Seq<LinkGene>, closure: Set<i32>, n: i32) -> bool {
    &&& !inputs.contains(n)
    &&& exists|i: int|
        0 <= i < links.len() && (#[trigger] links[i]).id.in_id == n && closure.contains(
            links[i].id.out_id,
        )
}

/// The neurons from which an output is reached in at most `steps` links,
/// along neurons that are no inputs.
pub open spec fn required_within(
    inputs: Seq<i32>,
    outputs: Seq<i32>,
    links: Seq<LinkGene>,
    steps: nat,
) -> Set<i32>
    decreases steps,
{
    if steps == 0 {
        outputs.to_set()
    } else {
        let prev = required_within(inputs, outputs, links, (steps - 1) as nat);
        Set::new(|n: i32| prev.contains(n) || feeds_into(inputs, links, prev, n))
    }
}

/// The neurons that influence some output: the outputs themselves, and every
/// neuron that is no input and feeds a neuron of this set. It is the least
/// such set.
pub open spec fn required_ids(inputs: Seq<i32>, outputs: Seq<i32>, links: Seq<LinkGene>) -> Set<i32> {
    Set::new(|n: i32| exists|k: nat| required_within(inputs, outputs, links, k).contains(n))
}

proof fn lemma_required_within_grows(inputs: Seq<i32>, outputs: Seq<i32>, links: Seq<LinkGene>, i: int, k: nat)
    requires
        0 <= i < links.len(),
        required_within(inputs, outputs, links, k).contains(links[i].id.out_id),
        !inputs.contains(links[i].id.in_id),
    ensures
        required_within(inputs, outputs, links, k + 1).contains(links[i].id.in_id),
{
    let prev = required_within(inputs, outputs, links, k);
    assert(feeds_into(inputs, links, prev, links[i].id.in_id));
}

proof fn lemma_closed_set_holds_required(
    inputs: Seq<i32>,
    outputs: Seq<i32>,
    links: Seq<LinkGene>,
    closed: Set<i32>,
    k: nat,
)
    requires
        outputs.to_set().subset_of(closed),
        forall|j: int|
            0 <= j < links.len() && closed.contains((#[trigger] links[j]).id.out_id) && !inputs.contains(
                links[j].id.in_id,
            ) ==> closed.contains(links[j].id.in_id),
    ensures
        required_within(inputs, outputs, links, k).subset_of(closed),
    decreases k,
{
    if k > 0 {
        lemma_closed_set_holds_required(inputs, outputs, links, closed, (k - 1) as nat);
    }
}

/// Collects a list of ids into a set.
pub fn id_set(ids: &Vec<i32>) -> (set: HashSet<i32>)
    ensures
        set@ == ids@.to_set(),
{
    let mut set: HashSet<i32> = HashSet::new();
    let mut i: usize = 0;
    while i < ids.len()
        invariant
            i <= ids.len(),
            forall|x: i32| set@.contains(x) <==> exists|j: int| 0 <= j < i && ids[j] == x,
        decreases ids.len() - i,
    {
        set.insert(ids[i]);
        i += 1;
    }
    assert(set@ =~= ids@.to_set());
    set
}

/// Computes the neurons that influence some output: starting from the
/// outputs, every neuron that is no input and feeds a neuron already found is
/// added, until nothing new is found.
pub fn required_for_output(inputs: &Vec<i32>, outputs: &Vec<i32>, links: &Vec<LinkGene>) -> (required:
    HashSet<i32>)
    ensures
        required@ == required_ids(inputs@, outputs@, links@),
{
    let mut required: HashSet<i32> = id_set(outputs);
    proof {
        assert forall|n: i32| required@.contains(n) implies required_ids(inputs@, outputs@, links@).contains(n) by {
            assert(required_within(inputs@, outputs@, links@, 0).contains(n));
        }
    }
    loop
        invariant
            outputs@.to_set().subset_of(required@),
            required@.subset_of(required_ids(inputs@, outputs@, links@)),
        decreases missing(links@.map_values(|l: LinkGene| l.id.in_id), required@, links@.len()),
    {
        let ghost start = required@;
        let ghost sources = links@.map_values(|l: LinkGene| l.id.in_id);
        let ghost mut witness: int = 0;
        let mut changed = false;
        let mut j: usize = 0;
        while j < links.len()
            invariant
                j <= links.len(),
                start.subset_of(required@),
                outputs@.to_set().subset_of(required@),
                required@.subset_of(required_ids(inputs@, outputs@, links@)),
                !changed ==> required@ == start,
                !changed ==> forall|m: int|
                    0 <= m < j && required@.contains((#[trigger] links[m]).id.out_id) && !inputs@.contains(
                        links[m].id.in_id,
                    ) ==> required@.contains(links[m].id.in_id),
                changed ==> 0 <= witness < links.len() && !start.contains(links[witness].id.in_id)
                    && required@.contains(links[witness].id.in_id),
            decreases links.len() - j,
        {
            let link = links[j];
            if required.contains(&link.id.out_id) && !contains_id(inputs, link.id.in_id)
                && !required.contains(&link.id.in_id) {
                proof {
                    let target = link.id.out_id;
                    let k = choose|k: nat| required_within(inputs@, outputs@, links@, k).contains(target);
                    lemma_required_within_grows(inputs@, outputs@, links@, j as int, k);
                    if !changed {
                        witness = j as int;
                    }
                }
                required.insert(link.id.in_id);
                changed = true;
            }
            j += 1;
        }
        if !changed {
            proof {
                assert forall|n: i32| required_ids(inputs@, outputs@, links@).contains(n) implies required@.contains(
                    n,
                ) by {
                    let k = choose|k: nat| required_within(inputs@, outputs@, links@, k).contains(n);
                    lemma_closed_set_holds_required(inputs@, outputs@, links@, required@, k);
                }
                assert(required@ =~= required_ids(inputs@, outputs@, links@));
            }
            return required;
        }
        proof {
            assert(!start.contains(sources[witness]) && required@.contains(sources[witness]));
            lemma_missing_shrinks(sources, start, required@, links@.len());
        }
    }
}

/// Whether every link into `n` comes from a neuron of `satisfied`.
pub open spec fn ready(links: Seq<LinkGene>, satisfied: Set<i32>, n: i32) -> bool {
    forall|i: int|
        0 <= i < links.len() && (#[trigger] links[i]).id.out_id == n ==> satisfied.contains(
            links[i].id.in_id,
        )
}

/// The neurons that can be evaluated next: required, not yet satisfied, and
/// fed by satisfied neurons only.
pub open spec fn next_layer(required: Set<i32>, links: Seq<LinkGene>, satisfied: Set<i32>) -> Set<i32> {
    Set::new(|n: i32| required.contains(n) && !satisfied.contains(n) && ready(links, satisfied, n))
}

/// The neurons whose value is known before layer `k` is evaluated: the inputs
/// and all earlier layers.
pub open spec fn satisfied_before(inputs: Seq<i32>, outputs: Seq<i32>, links: Seq<LinkGene>, k: nat) -> Set<
    i32,
>
    decreases k,
{
    if k == 0 {
        inputs.to_set()
    } else {
        let before = satisfied_before(inputs, outputs, links, (k - 1) as nat);
        before.union(next_layer(required_ids(inputs, outputs, links), links, before))
    }
}

/// The members of layer `k`.
pub open spec fn layer(inputs: Seq<i32>, outputs: Seq<i32>, links: Seq<LinkGene>, k: nat) -> Set<i32> {
    next_layer(required_ids(inputs, outputs, links), links, satisfied_before(inputs, outputs, links, k))
}

/// Strictly ascending order.
pub open spec fn ascending(s: Seq<i32>) -> bool {
    forall|i: int, j: int| 0 <= i < j < s.len() ==> s[i] < s[j]
}

/// Whether `layers` is the layering of the graph that `links` span: each
/// layer lists, in ascending order, exactly the neurons that can be evaluated
/// once the layers before it are known, no layer is empty, and after the last
/// one nothing more can be evaluated.
pub open spec fn is_layering(
    inputs: Seq<i32>,
    outputs: Seq<i32>,
    links: Seq<LinkGene>,
    layers: Seq<Seq<i32>>,
) -> bool {
    &&& forall|k: int|
        0 <= k < layers.len() ==> {
            &&& ascending(#[trigger] layers[k])
            &&& layers[k].len() > 0
            &&& layers[k].to_set() == layer(inputs, outputs, links, k as nat)
        }
    &&& layer(inputs, outputs, links, layers.len()) == Set::<i32>::empty()
}

/// The layers as sequences of ids.
pub open spec fn layer_views(layers: Seq<Vec<i32>>) -> Seq<Seq<i32>> {
    layers.map_values(|v: Vec<i32>| v@)
}

/// Copies the links that are switched on.
pub fn enabled_links(links: &Vec<LinkGene>) -> (active: Vec<LinkGene>)
    ensures
        active@ == enabled(links@),
{
    let mut active: Vec<LinkGene> = Vec::new();
    let mut i: usize = 0;
    while i < links.len()
        invariant
            i <= links.len(),
            active@ == enabled(links@.take(i as int)),
        decreases links.len() - i,
    {
        proof {
            let pred = |l: LinkGene| l.is_enabled;
            assert(links@.take(i + 1) == links@.take(i as int).push(links@[i as int]));
            links@.take(i as int).lemma_filter_push(links@[i as int], pred);
        }
        if links[i].is_enabled {
            active.push(links[i]);
        }
        i += 1;
    }
    assert(links@.take(links.len() as int) == links@);
    active
}

/// Puts `id` into an ascending list, unless it is there already.
pub fn insert_ascending(ids: &mut Vec<i32>, id: i32)
    requires
        ascending(old(ids)@),
    ensures
        ascending(final(ids)@),
        forall|x: i32| final(ids)@.contains(x) <==> (x == id || old(ids)@.contains(x)),
        final(ids)@.len() == old(ids)@.len() + if old(ids)@.contains(id) { 0int } else { 1int },
{
    let mut i: usize = 0;
    while i < ids.len() && ids[i] < id
        invariant
            i <= ids.len(),
            ids@ == old(ids)@,
            forall|j: int| 0 <= j < i ==> ids[j] < id,
        decreases ids.len() - i,
    {
        i += 1;
    }
    if i < ids.len() && ids[i] == id {
        return ;
    }
    let ghost before = ids@;
    ids.insert(i, id);
    proof {
        let after = ids@;
        assert(!before.contains(id)) by {
            if before.contains(id) {
                let j = choose|j: int| 0 <= j < before.len() && before[j] == id;
                if j > i {
                    assert(before[i as int] < before[j]);
                }
            }
        }
        assert forall|x: i32| after.contains(x) <==> (x == id || before.contains(x)) by {
            if after.contains(x) {
                let j = choose|j: int| 0 <= j < after.len() && after[j] == x;
                if j < i {
                    assert(before[j] == x);
                } else if j > i {
                    assert(before[j - 1] == x);
                }
            }
            if before.contains(x) {
                let j = choose|j: int| 0 <= j < before.len() && before[j] == x;
                if j < i {
                    assert(after[j] == x);
                } else {
                    assert(after[j + 1] == x);
                }
            }
            assert(after[i as int] == id);
        }
        assert forall|a: int, b: int| 0 <= a < b < after.len() implies after[a] < after[b] by {
            let pa = if a < i { a } else { a - 1 };
            let pb = if b < i { b } else { b - 1 };
            if a != i && b != i {
                assert(before[pa] < before[pb]);
            }
        }
    }
}

/// Tells whether every link into `n` comes from a satisfied neuron.
pub fn is_ready(links: &Vec<LinkGene>, satisfied: &HashSet<i32>, n: i32) -> (r: bool)
    ensures
        r == ready(links@, satisfied@, n),
{
    let mut i: usize = 0;
    while i < links.len()
        invariant
            i <= links.len(),
            forall|j: int|
                0 <= j < i && (#[trigger] links[j]).id.out_id == n ==> satisfied@.contains(links[j].id.in_id),
        decreases links.len() - i,
    {
        if links[i].id.out_id == n && !satisfied.contains(&links[i].id.in_id) {
            return false;
        }
        i += 1;
    }
    true
}

proof fn lemma_required_is_named(inputs: Seq<i32>, outputs: Seq<i32>, links: Seq<LinkGene>, k: nat, n: i32)
    requires
        required_within(inputs, outputs, links, k).contains(n),
    ensures
        outputs.contains(n) || exists|i: int| 0 <= i < links.len() && (#[trigger] links[i]).id.in_id == n,
    decreases k,
{
    if k > 0 {
        let prev = required_within(inputs, outputs, links, (k - 1) as nat);
        if prev.contains(n) {
            lemma_required_is_named(inputs, outputs, links, (k - 1) as nat, n);
        }
    }
}

/// Lists, in ascending order, the required neurons that are no inputs.
fn required_in_order(inputs: &Vec<i32>, outputs: &Vec<i32>, links: &Vec<LinkGene>, required: &HashSet<i32>) -> (ids:
    Vec<i32>)
    requires
        required@ == required_ids(inputs@, outputs@, links@),
    ensures
        ascending(ids@),
        forall|x: i32| ids@.contains(x) <==> (required@.contains(x) && !inputs@.contains(x)),
{
    let mut ids: Vec<i32> = Vec::new();
    let mut i: usize = 0;
    while i < outputs.len()
        invariant
            i <= outputs.len(),
            ascending(ids@),
            forall|x: i32| ids@.contains(x) ==> (required@.contains(x) && !inputs@.contains(x)),
            forall|j: int|
                0 <= j < i && required@.contains(outputs[j]) && !inputs@.contains(outputs[j]) ==> ids@.contains(
                    outputs[j],
                ),
        decreases outputs.len() - i,
    {
        let id = outputs[i];
        if required.contains(&id) && !contains_id(inputs, id) {
            insert_ascending(&mut ids, id);
        }
        i += 1;
    }
    let mut j: usize = 0;
    while j < links.len()
        invariant
            j <= links.len(),
            ascending(ids@),
            forall|x: i32| ids@.contains(x) ==> (required@.contains(x) && !inputs@.contains(x)),
            forall|m: int|
                0 <= m < outputs.len() && required@.contains(outputs[m]) && !inputs@.contains(outputs[m])
                    ==> ids@.contains(outputs[m]),
            forall|m: int|
                0 <= m < j && required@.contains((#[trigger] links[m]).id.in_id) && !inputs@.contains(
                    links[m].id.in_id,
                ) ==> ids@.contains(links[m].id.in_id),
        decreases links.len() - j,
    {
        let id = links[j].id.in_id;
        if required.contains(&id) && !contains_id(inputs, id) {
            insert_ascending(&mut ids, id);
        }
        j += 1;
    }
    proof {
        assert forall|x: i32| required@.contains(x) && !inputs@.contains(x) implies ids@.contains(x) by {
            let k = choose|k: nat| required_within(inputs@, outputs@, links@, k).contains(x);
            lemma_required_is_named(inputs@, outputs@, links@, k, x);
            if outputs@.contains(x) {
                let m = choose|m: int| 0 <= m < outputs.len() && outputs[m] == x;
                assert(ids@.contains(outputs[m]));
            } else {
                let m = choose|m: int| 0 <= m < links.len() && (#[trigger] links[m]).id.in_id == x;
                assert(ids@.contains(links[m].id.in_id));
            }
        }
    }
    ids
}

/// Orders the neurons that influence an output into layers, over the links
/// that are switched on. The first layer holds the required neurons that read
/// inputs only (or nothing); each later layer holds those that read inputs
/// and earlier layers only. Within a layer the ids ascend. A required neuron
/// on a cycle, or behind one, is in no layer.
pub fn feed_forward_layers(inputs: &Vec<i32>, outputs: &Vec<i32>, links: &Vec<LinkGene>) -> (layers: Vec<
    Vec<i32>,
>)
    ensures
        is_layering(inputs@, outputs@, enabled(links@), layer_views(layers@)),
{
    let active = enabled_links(links);
    let required = required_for_output(inputs, outputs, &active);
    let mut remaining = required_in_order(inputs, outputs, &active, &required);
    let mut satisfied = id_set(inputs);
    let mut layers: Vec<Vec<i32>> = Vec::new();
    loop
        invariant
            active@ == enabled(links@),
            required@ == required_ids(inputs@, outputs@, active@),
            ascending(remaining@),
            forall|x: i32| remaining@.contains(x) <==> (required@.contains(x) && !satisfied@.contains(x)),
            satisfied@ == satisfied_before(inputs@, outputs@, active@, layers.len() as nat),
            forall|k: int|
                0 <= k < layers.len() ==> {
                    &&& ascending((#[trigger] layers[k])@)
                    &&& layers[k]@.len() > 0
                    &&& layers[k]@.to_set() == layer(inputs@, outputs@, active@, k as nat)
                },
        decreases remaining.len(),
    {
        let mut members: Vec<i32> = Vec::new();
        let mut rest: Vec<i32> = Vec::new();
        let mut j: usize = 0;
        while j < remaining.len()
            invariant
                j <= remaining.len(),
                ascending(remaining@),
                ascending(members@),
                ascending(rest@),
                members.len() + rest.len() == j,
                forall|a: int, m: int|
                    0 <= a < members.len() && j <= m < remaining.len() ==> members[a] < remaining[m],
                forall|a: int, m: int| 0 <= a < rest.len() && j <= m < remaining.len() ==> rest[a] < remaining[m],
                forall|a: int|
                    0 <= a < members.len() ==> remaining@.contains(#[trigger] members[a]) && ready(
                        active@,
                        satisfied@,
                        members[a],
                    ),
                forall|a: int|
                    0 <= a < rest.len() ==> remaining@.contains(#[trigger] rest[a]) && !ready(
                        active@,
                        satisfied@,
                        rest[a],
                    ),
                forall|m: int|
                    0 <= m < j && ready(active@, satisfied@, #[trigger] remaining[m]) ==> members@.contains(
                        remaining[m],
                    ),
                forall|m: int|
                    0 <= m < j && !ready(active@, satisfied@, #[trigger] remaining[m]) ==> rest@.contains(
                        remaining[m],
                    ),
            decreases remaining.len() - j,
        {
            let n = remaining[j];
            let ghost members_before = members@;
            let ghost rest_before = rest@;
            if is_ready(&active, &satisfied, n) {
                members.push(n);
            } else {
                rest.push(n);
            }
            proof {
                assert forall|m: int|
                    0 <= m < j + 1 && ready(active@, satisfied@, #[trigger] remaining[m]) implies members@.contains(
                    remaining[m],
                ) by {
                    if m < j {
                        let a = choose|a: int| 0 <= a < members_before.len() && members_before[a] == remaining[m];
                        assert(members@[a] == remaining[m]);
                    } else {
                        assert(members@[members@.len() - 1] == n);
                    }
                }
                assert forall|m: int|
                    0 <= m < j + 1 && !ready(active@, satisfied@, #[trigger] remaining[m]) implies rest@.contains(
                    remaining[m],
                ) by {
                    if m < j {
                        let a = choose|a: int| 0 <= a < rest_before.len() && rest_before[a] == remaining[m];
                        assert(rest@[a] == remaining[m]);
                    } else {
                        assert(rest@[rest@.len() - 1] == n);
                    }
                }
                assert(remaining@.contains(n));
            }
            j += 1;
        }
        let ghost known = satisfied@;
        let ghost depth = layers.len() as nat;
        proof {
            assert(members@.to_set() =~= layer(inputs@, outputs@, active@, depth)) by {
                assert forall|x: i32| members@.to_set().contains(x) <==> layer(
                    inputs@,
                    outputs@,
                    active@,
                    depth,
                ).contains(x) by {
                    if members@.contains(x) {
                        let a = choose|a: int| 0 <= a < members.len() && members[a] == x;
                        assert(remaining@.contains(members[a]));
                    }
                    if required@.contains(x) && !known.contains(x) && ready(active@, known, x) {
                        assert(remaining@.contains(x));
                        let m = choose|m: int| 0 <= m < remaining.len() && remaining[m] == x;
                        assert(members@.contains(remaining[m]));
                    }
                }
            }
        }
        if members.len() == 0 {
            proof {
                assert(layer_views(layers@).len() == layers.len());
                assert(layer(inputs@, outputs@, active@, depth) =~= Set::<i32>::empty());
                assert forall|k: int| 0 <= k < layers.len() implies {
                    &&& ascending(#[trigger] layer_views(layers@)[k])
                    &&& layer_views(layers@)[k].len() > 0
                    &&& layer_views(layers@)[k].to_set() == layer(inputs@, outputs@, active@, k as nat)
                } by {
                    assert(layer_views(layers@)[k] == layers[k]@);
                }
            }
            return layers;
        }
        let mut t: usize = 0;
        while t < members.len()
            invariant
                t <= members.len(),
                satisfied@ == known.union(members@.take(t as int).to_set()),
            decreases members.len() - t,
        {
            satisfied.insert(members[t]);
            proof {
                assert(members@.take(t + 1) == members@.take(t as int).push(members@[t as int]));
                members@.take(t as int).lemma_push_to_set_commute(members@[t as int]);
                assert(satisfied@ =~= known.union(members@.take(t + 1).to_set()));
            }
            t += 1;
        }
        assert(members@.take(members.len() as int) == members@);
        proof {
            assert(satisfied@ =~= known.union(members@.to_set()));
            assert forall|x: i32| rest@.contains(x) <==> (required@.contains(x) && !satisfied@.contains(x)) by {
                if rest@.contains(x) {
                    let a = choose|a: int| 0 <= a < rest.len() && rest[a] == x;
                    assert(remaining@.contains(rest[a]));
                    assert(!members@.to_set().contains(x));
                }
                if required@.contains(x) && !satisfied@.contains(x) {
                    assert(remaining@.contains(x));
                    let m = choose|m: int| 0 <= m < remaining.len() && remaining[m] == x;
                    if ready(active@, known, remaining[m]) {
                        assert(members@.contains(remaining[m]));
                    }
                    assert(rest@.contains(remaining[m]));
                }
            }
        }
        layers.push(members);
        remaining = rest;
    }
}

/// Two ascending sequences with the same members are the same sequence.
pub proof fn lemma_ascending_unique(a: Seq<i32>, b: Seq<i32>)
    requires
        ascending(a),
        ascending(b),
        a.to_set() == b.to_set(),
    ensures
        a == b,
    decreases a.len(),
{
    if a.len() == 0 {
        if b.len() > 0 {
            assert(b.to_set().contains(b[0]));
            assert(a.contains(b[0]));
        }
        assert(a =~= b);
    } else {
        let top = a.last();
        assert(a.to_set().contains(top));
        assert(b.contains(top));
        let at = choose|i: int| 0 <= i < b.len() && b[i] == top;
        if at < b.len() - 1 {
            assert(b.to_set().contains(b.last()));
            assert(a.contains(b.last()));
            let back = choose|i: int| 0 <= i < a.len() && a[i] == b.last();
            if back < a.len() - 1 {
                assert(a[back] < a[a.len() - 1]);
            }
            assert(b[at] < b[b.len() - 1]);
        }
        let shorter_a = a.drop_last();
        let shorter_b = b.drop_last();
        assert(shorter_a.to_set() =~= shorter_b.to_set()) by {
            assert forall|x: i32| shorter_a.to_set().contains(x) <==> shorter_b.to_set().contains(x) by {
                if shorter_a.contains(x) {
                    let i = choose|i: int| 0 <= i < shorter_a.len() && shorter_a[i] == x;
                    assert(a[i] < a[a.len() - 1]);
                    assert(a.to_set().contains(a[i]));
                    assert(b.contains(x));
                    let j = choose|j: int| 0 <= j < b.len() && b[j] == x;
                    assert(shorter_b[j] == x);
                }
                if shorter_b.contains(x) {
                    let i = choose|i: int| 0 <= i < shorter_b.len() && shorter_b[i] == x;
                    assert(b[i] < b[b.len() - 1]);
                    assert(b.to_set().contains(b[i]));
                    assert(a.contains(x));
                    let j = choose|j: int| 0 <= j < a.len() && a[j] == x;
                    assert(shorter_a[j] == x);
                }
            }
        }
        lemma_ascending_unique(shorter_a, shorter_b);
        assert(a =~= shorter_a.push(top));
        assert(b =~= shorter_b.push(top));
    }
}

/// A graph has one layering only: the result of `feed_forward_layers` is
/// determined by its arguments.
pub proof fn lemma_layering_unique(
    inputs: Seq<i32>,
    outputs: Seq<i32>,
    links: Seq<LinkGene>,
    first: Seq<Seq<i32>>,
    second: Seq<Seq<i32>>,
)
    requires
        is_layering(inputs, outputs, links, first),
        is_layering(inputs, outputs, links, second),
    ensures
        first == second,
{
    if first.len() < second.len() {
        let extra = second[first.len() as int];
        assert(extra.to_set().contains(extra[0]));
    }
    if second.len() < first.len() {
        let extra = first[second.len() as int];
        assert(extra.to_set().contains(extra[0]));
    }
    assert forall|k: int| 0 <= k < first.len() implies first[k] == second[k] by {
        lemma_ascending_unique(first[k], second[k]);
    }
    assert(first =~= second);
}

/// Every neuron of every layer is one that influences some output.
pub proof fn lemma_layers_hold_required(
    inputs: Seq<i32>,
    outputs: Seq<i32>,
    links: Seq<LinkGene>,
    layers: Seq<Seq<i32>>,
    k: int,
    i: int,
)
    requires
        is_layering(inputs, outputs, links, layers),
        0 <= k < layers.len(),
        0 <= i < layers[k].len(),
    ensures
        required_ids(inputs, outputs, links).contains(layers[k][i]),
{
    assert(layers[k].to_set().contains(layers[k][i]));
}

/// A neuron whose value is known before layer `k` is an input or a member of
/// an earlier layer.
pub proof fn lemma_satisfied_members(
    inputs: Seq<i32>,
    outputs: Seq<i32>,
    links: Seq<LinkGene>,
    layers: Seq<Seq<i32>>,
    k: nat,
    x: i32,
)
    requires
        is_layering(inputs, outputs, links, layers),
        k <= layers.len(),
        satisfied_before(inputs, outputs, links, k).contains(x),
    ensures
        inputs.contains(x) || exists|s: int| 0 <= s < k && (#[trigger] layers[s]).contains(x),
    decreases k,
{
    if k > 0 {
        let before = satisfied_before(inputs, outputs, links, (k - 1) as nat);
        if before.contains(x) {
            lemma_satisfied_members(inputs, outputs, links, layers, (k - 1) as nat, x);
        } else {
            assert(layer(inputs, outputs, links, (k - 1) as nat).contains(x));
            assert(layers[k - 1].to_set().contains(x));
        }
    }
}

/// What is known before a layer stays known before every later layer.
pub proof fn lemma_satisfied_grows(inputs: Seq<i32>, outputs: Seq<i32>, links: Seq<LinkGene>, k: nat, x: i32)
    requires
        inputs.contains(x) || exists|s: nat|
            s <= k && #[trigger] satisfied_before(inputs, outputs, links, s).contains(x),
    ensures
        satisfied_before(inputs, outputs, links, k).contains(x),
    decreases k,
{
    if k > 0 && !satisfied_before(inputs, outputs, links, k).contains(x) {
        if inputs.contains(x) {
            lemma_satisfied_grows(inputs, outputs, links, (k - 1) as nat, x);
        } else {
            let s = choose|s: nat| s <= k && #[trigger] satisfied_before(inputs, outputs, links, s).contains(x);
            assert(s <= k - 1);
            lemma_satisfied_grows(inputs, outputs, links, (k - 1) as nat, x);
        }
    }
}

/// Whether a neuron influences an output and is in no layer and no input.
pub open spec fn left_out(
    inputs: Seq<i32>,
    outputs: Seq<i32>,
    links: Seq<LinkGene>,
    layers: Seq<Seq<i32>>,
    x: i32,
) -> bool {
    &&& required_ids(inputs, outputs, links).contains(x)
    &&& !satisfied_before(inputs, outputs, links, layers.len()).contains(x)
}

/// A neuron that was left out is fed by one that was left out.
proof fn lemma_left_out_is_fed(
    inputs: Seq<i32>,
    outputs: Seq<i32>,
    links: Seq<LinkGene>,
    layers: Seq<Seq<i32>>,
    x: i32,
)
    requires
        is_layering(inputs, outputs, links, layers),
        left_out(inputs, outputs, links, layers, x),
    ensures
        exists|a: i32| left_out(inputs, outputs, links, layers, a) && #[trigger] joins(links, a, x),
{
    let known = satisfied_before(inputs, outputs, links, layers.len());
    let required = required_ids(inputs, outputs, links);
    assert(!layer(inputs, outputs, links, layers.len()).contains(x));
    assert(!ready(links, known, x));
    let i = choose|i: int|
        0 <= i < links.len() && (#[trigger] links[i]).id.out_id == x && !known.contains(links[i].id.in_id);
    let a = links[i].id.in_id;
    if inputs.contains(a) {
        lemma_satisfied_grows(inputs, outputs, links, layers.len(), a);
    }
    let k = choose|k: nat| required_within(inputs, outputs, links, k).contains(x);
    lemma_required_within_grows(inputs, outputs, links, i, k);
    assert(required.contains(a));
    assert(joins(links, a, x));
}

/// From a neuron that was left out, walks of every length lead backwards
/// along neurons that were left out.
proof fn lemma_left_out_walk(
    inputs: Seq<i32>,
    outputs: Seq<i32>,
    links: Seq<LinkGene>,
    layers: Seq<Seq<i32>>,
    x: i32,
    length: nat,
) -> (walk: Seq<i32>)
    requires
        is_layering(inputs, outputs, links, layers),
        left_out(inputs, outputs, links, layers, x),
        length >= 1,
    ensures
        walk.len() == length,
        is_walk(links, walk),
        walk.last() == x,
        forall|i: int| 0 <= i < walk.len() ==> left_out(inputs, outputs, links, layers, #[trigger] walk[i]),
    decreases length,
{
    if length == 1 {
        seq![x]
    } else {
        let shorter = lemma_left_out_walk(inputs, outputs, links, layers, x, (length - 1) as nat);
        lemma_left_out_is_fed(inputs, outputs, links, layers, shorter.first());
        let a = choose|a: i32|
            left_out(inputs, outputs, links, layers, a) && #[trigger] joins(links, a, shorter.first());
        let walk = seq![a] + shorter;
        assert forall|i: int| 0 <= i < walk.len() - 1 implies joins(links, #[trigger] walk[i], walk[i + 1]) by {
            if i > 0 {
                assert(walk[i] == shorter[i - 1]);
                assert(walk[i + 1] == shorter[i - 1 + 1]);
                assert(joins(links, shorter[i - 1], shorter[i - 1 + 1]));
            } else {
                assert(walk[1] == shorter[0]);
            }
        }
        assert forall|i: int| 0 <= i < walk.len() implies left_out(
            inputs,
            outputs,
            links,
            layers,
            #[trigger] walk[i],
        ) by {
            if i > 0 {
                assert(walk[i] == shorter[i - 1]);
            }
        }
        walk
    }
}

/// Where the links form no cycle, the layers hold every neuron that
/// influences an output, but for the inputs: nothing that matters is left
/// out of the evaluation.
pub proof fn lemma_layers_hold_all_required(
    inputs: Seq<i32>,
    outputs: Seq<i32>,
    links: Seq<LinkGene>,
    layers: Seq<Seq<i32>>,
    x: i32,
)
    requires
        is_layering(inputs, outputs, links, layers),
        acyclic(links),
        required_ids(inputs, outputs, links).contains(x),
        !inputs.contains(x),
    ensures
        exists|k: int| 0 <= k < layers.len() && (#[trigger] layers[k]).contains(x),
{
    let known = satisfied_before(inputs, outputs, links, layers.len());
    if known.contains(x) {
        lemma_satisfied_members(inputs, outputs, links, layers, layers.len(), x);
    } else {
        let sources = links.map_values(|l: LinkGene| l.id.in_id);
        let named = outputs.to_set().union(sources.to_set());
        let bound = outputs.len() + links.len();
        let walk = lemma_left_out_walk(inputs, outputs, links, layers, x, bound + 1);
        lemma_walk_never_repeats(links, walk);
        walk.unique_seq_to_set();
        vstd::seq_lib::seq_to_set_is_finite(outputs);
        vstd::seq_lib::seq_to_set_is_finite(sources);
        outputs.lemma_cardinality_of_set();
        sources.lemma_cardinality_of_set();
        vstd::set_lib::lemma_len_union(outputs.to_set(), sources.to_set());
        assert forall|v: i32| walk.to_set().contains(v) implies named.contains(v) by {
            let i = choose|i: int| 0 <= i < walk.len() && walk[i] == v;
            assert(left_out(inputs, outputs, links, layers, walk[i]));
            let k = choose|k: nat| required_within(inputs, outputs, links, k).contains(v);
            lemma_required_is_named(inputs, outputs, links, k, v);
            if !outputs.contains(v) {
                let at = choose|at: int| 0 <= at < links.len() && (#[trigger] links[at]).id.in_id == v;
                assert(sources[at] == v);
            }
        }
        vstd::set_lib::lemma_len_subset(walk.to_set(), named);
    }
}

/// One value that a neuron reads: the neuron it comes from and the weight
/// (an encoded real number) it is multiplied by.
#[derive(Clone, Copy, Debug, PartialEq)]
pub struct NeuronInput {
    pub input_id: i32,
    pub weight: u32,
}

/// One step of an evaluation: a neuron, its bias (an encoded real number)
/// and what it reads.
#[derive(Clone, Debug, PartialEq)]
pub struct Neuron {
    pub id: i32,
    pub bias: u32,
    pub inputs: Vec<NeuronInput>,
}

/// An evaluation step as a mathematical value.
pub struct NeuronView {
    pub id: i32,
    pub bias: u32,
    pub inputs: Seq<NeuronInput>,
}

impl View for Neuron {
    type V = NeuronView;

    open spec fn view(&self) -> NeuronView {
        NeuronView { id: self.id, bias: self.bias, inputs: self.inputs@ }
    }
}

/// An evaluation plan: the ids of the inputs and outputs, and the neurons in
/// the order in which they are evaluated.
#[derive(Debug, PartialEq)]
pub struct FeedForwardNeuralNetwork {
    pub input_ids: Vec<i32>,
    pub output_ids: Vec<i32>,
    pub neurons: Vec<Neuron>,
}

/// An evaluation plan as a mathematical value.
pub struct NetworkView {
    pub input_ids: Seq<i32>,
    pub output_ids: Seq<i32>,
    pub neurons: Seq<NeuronView>,
}

/// The steps of a plan as mathematical values.
pub open spec fn neuron_views(neurons: Seq<Neuron>) -> Seq<NeuronView> {
    neurons.map_values(|n: Neuron| n@)
}

impl View for FeedForwardNeuralNetwork {
    type V = NetworkView;

    open spec fn view(&self) -> NetworkView {
        NetworkView {
            input_ids: self.input_ids@,
            output_ids: self.output_ids@,
            neurons: neuron_views(self.neurons@),
        }
    }
}

/// Whether, at its turn, every step reads values that are there: those of
/// inputs, of outputs (which start at zero), and of steps before it.
pub open spec fn reads_known(input_ids: Seq<i32>, output_ids: Seq<i32>, neurons: Seq<NeuronView>) -> bool {
    forall|k: int, j: int|
        0 <= k < neurons.len() && 0 <= j < neurons[k].inputs.len() ==> known_before(
            input_ids,
            output_ids,
            neurons,
            k,
            #[trigger] neurons[k].inputs[j].input_id,
        )
}

/// Whether the value of neuron `id` is there when step `k` is evaluated.
pub open spec fn known_before(
    input_ids: Seq<i32>,
    output_ids: Seq<i32>,
    neurons: Seq<NeuronView>,
    k: int,
    id: i32,
) -> bool {
    ||| input_ids.contains(id)
    ||| output_ids.contains(id)
    ||| exists|m: int| 0 <= m < k && (#[trigger] neurons[m]).id == id
}

impl NetworkView {
    /// Whether the plan can be evaluated from front to back without ever
    /// missing a value.
    pub open spec fn evaluable(self) -> bool {
        reads_known(self.input_ids, self.output_ids, self.neurons)
    }

    /// Whether some step computes the neuron.
    pub open spec fn has_step(self, id: i32) -> bool {
        exists|m: int| 0 <= m < self.neurons.len() && (#[trigger] self.neurons[m]).id == id
    }
}

/// The choice of the links that neuron `n` reads through.
pub open spec fn read_by(n: i32) -> spec_fn(LinkGene) -> bool {
    |l: LinkGene| l.is_enabled && l.id.out_id == n
}

/// What a link contributes to the neuron it leads to.
pub open spec fn as_input() -> spec_fn(LinkGene) -> NeuronInput {
    |l: LinkGene| NeuronInput { input_id: l.id.in_id, weight: l.weight }
}

/// What neuron `n` reads: one entry for each enabled link into it, in the
/// order of the links.
pub open spec fn reads(links: Seq<LinkGene>, n: i32) -> Seq<NeuronInput> {
    links.filter(read_by(n)).map_values(as_input())
}

/// The evaluation step of neuron `n` of a genome that has a gene for it.
pub open spec fn record(genome: GenomeView, n: i32) -> NeuronView {
    NeuronView { id: n, bias: genome.neuron_with(n).unwrap().bias, inputs: reads(genome.links, n) }
}

/// The choice of the ids that a genome has a neuron gene for.
pub open spec fn named_by(genome: GenomeView) -> spec_fn(i32) -> bool {
    |n: i32| genome.has_neuron(n)
}

/// The evaluation steps for the neurons of `order` that the genome has a
/// gene for, in that order.
pub open spec fn plan(genome: GenomeView, order: Seq<i32>) -> Seq<NeuronView> {
    order.filter(named_by(genome)).map_values(|n: i32| record(genome, n))
}

/// The layering of a graph.
pub open spec fn layering(inputs: Seq<i32>, outputs: Seq<i32>, links: Seq<LinkGene>) -> Seq<Seq<i32>> {
    choose|layers: Seq<Seq<i32>>| is_layering(inputs, outputs, links, layers)
}

/// Collects what neuron `n` reads.
pub fn collect_inputs(links: &Vec<LinkGene>, n: i32) -> (inputs: Vec<NeuronInput>)
    ensures
        inputs@ == reads(links@, n),
{
    let mut inputs: Vec<NeuronInput> = Vec::new();
    let mut i: usize = 0;
    while i < links.len()
        invariant
            i <= links.len(),
            inputs@ == reads(links@.take(i as int), n),
        decreases links.len() - i,
    {
        proof {
            let seen = links@.take(i as int);
            assert(links@.take(i + 1) == seen.push(links@[i as int]));
            seen.lemma_filter_push(links@[i as int], read_by(n));
            seen.filter(read_by(n)).lemma_push_map_commute(as_input(), links@[i as int]);
        }
        if links[i].is_enabled && links[i].id.out_id == n {
            inputs.push(NeuronInput { input_id: links[i].id.in_id, weight: links[i].weight });
        }
        i += 1;
    }
    assert(links@.take(links.len() as int) == links@);
    inputs
}

/// Every entry of what a neuron reads comes from an enabled link into it.
pub proof fn lemma_reads_come_from_links(links: Seq<LinkGene>, n: i32, j: int)
    requires
        0 <= j < reads(links, n).len(),
    ensures
        exists|i: int|
            0 <= i < links.len() && (#[trigger] links[i]).is_enabled && links[i].id.out_id == n
                && links[i].id.in_id == reads(links, n)[j].input_id && links[i].weight == reads(
                links,
                n,
            )[j].weight,
{
    let chosen = links.filter(read_by(n));
    links.lemma_filter_pred(read_by(n), j);
    assert(chosen.contains(chosen[j]));
    links.lemma_filter_contains_rev(read_by(n), chosen[j]);
    let i = choose|i: int| 0 <= i < links.len() && links[i] == chosen[j];
    assert(links[i].is_enabled && links[i].id.out_id == n);
}

impl FeedForwardNeuralNetwork {
    /// Builds the evaluation plan of a genome: the neurons that influence an
    /// output, layer by layer, each with its bias and with one entry for
    /// every enabled link into it. A plan built from a complete genome can
    /// be evaluated without ever missing a value. If the genome has no
    /// cycle besides, the plan has a step for every neuron that influences
    /// an output, so for every output.
    pub fn create_from_genome(genome: &Genome) -> (net: FeedForwardNeuralNetwork)
        ensures
            net@.input_ids == genome@.input_ids(),
            net@.output_ids == genome@.output_ids(),
            net@.neurons == plan(
                genome@,
                layering(genome@.input_ids(), genome@.output_ids(), enabled(genome@.links)).flatten(),
            ),
            genome@.complete() ==> net@.evaluable(),
            genome@.complete() && acyclic(genome@.links) ==> forall|x: i32|
                #[trigger] required_ids(genome@.input_ids(), genome@.output_ids(), enabled(genome@.links)).contains(x)
                    && !genome@.input_ids().contains(x) ==> net@.has_step(x),
    {
        let inputs = genome.make_input_ids();
        let outputs = genome.make_output_ids();
        let layers = feed_forward_layers(&inputs, &outputs, &genome.links);
        let ghost views = layer_views(layers@);
        let ghost active = enabled(genome@.links);
        proof {
            lemma_layering_unique(inputs@, outputs@, active, views, layering(inputs@, outputs@, active));
        }
        let mut neurons: Vec<Neuron> = Vec::new();
        let mut t: usize = 0;
        assert(views.take(0).flatten() =~= Seq::<i32>::empty());
        assert(neuron_views(neurons@) =~= plan(genome@, Seq::<i32>::empty()));
        while t < layers.len()
            invariant
                t <= layers.len(),
                views == layer_views(layers@),
                active == enabled(genome@.links),
                inputs@ == genome@.input_ids(),
                outputs@ == genome@.output_ids(),
                is_layering(inputs@, outputs@, active, views),
                neuron_views(neurons@) == plan(genome@, views.take(t as int).flatten()),
                genome@.complete() ==> reads_known(inputs@, outputs@, neuron_views(neurons@)),
                forall|s: int, x: i32|
                    0 <= s < t && #[trigger] views[s].contains(x) && genome@.has_neuron(x) ==> exists|m: int|
                        0 <= m < neurons.len() && (#[trigger] neurons[m]).id == x,
            decreases layers.len() - t,
        {
            let members = &layers[t];
            let ghost done = views.take(t as int).flatten();
            let mut j: usize = 0;
            assert(members@.take(0) =~= Seq::<i32>::empty());
            assert(done + members@.take(0) =~= done);
            assert(views[t as int] == members@);
            while j < members.len()
                invariant
                    j <= members.len(),
                    t < layers.len(),
                    views == layer_views(layers@),
                    views[t as int] == members@,
                    active == enabled(genome@.links),
                    is_layering(inputs@, outputs@, active, views),
                    done == views.take(t as int).flatten(),
                    neuron_views(neurons@) == plan(genome@, done + members@.take(j as int)),
                    genome@.complete() ==> reads_known(inputs@, outputs@, neuron_views(neurons@)),
                    forall|s: int, x: i32|
                        0 <= s < t && #[trigger] views[s].contains(x) && genome@.has_neuron(x) ==> exists|m: int|
                            0 <= m < neurons.len() && (#[trigger] neurons[m]).id == x,
                    forall|a: int|
                        0 <= a < j && genome@.has_neuron(#[trigger] members[a]) ==> exists|m: int|
                            0 <= m < neurons.len() && (#[trigger] neurons[m]).id == members[a],
                decreases members.len() - j,
            {
                let n = members[j];
                let ghost steps = neuron_views(neurons@);
                let ghost order = done + members@.take(j as int);
                let ghost before = neurons@;
                proof {
                    assert(done + members@.take(j + 1) =~= order.push(n));
                    order.lemma_filter_push(n, named_by(genome@));
                    order.filter(named_by(genome@)).lemma_push_map_commute(|x: i32| record(genome@, x), n);
                }
                match genome.find_neuron(&n) {
                    Some(gene) => {
                        let inputs_of_n = collect_inputs(&genome.links, n);
                        let neuron = Neuron { id: gene.id, bias: gene.bias, inputs: inputs_of_n };
                        proof {
                            assert(neuron@ == record(genome@, n));
                        }
                        neurons.push(neuron);
                        proof {
                            assert(neuron_views(neurons@) =~= steps.push(record(genome@, n)));
                            assert(neurons[neurons.len() - 1].id == n);
                            assert forall|s: int, x: i32|
                                0 <= s < t && #[trigger] views[s].contains(x) && genome@.has_neuron(
                                    x,
                                ) implies exists|m: int|
                                0 <= m < neurons.len() && (#[trigger] neurons[m]).id == x by {
                                let m = choose|m: int| 0 <= m < before.len() && (#[trigger] before[m]).id == x;
                                assert(neurons[m].id == x);
                            }
                            assert forall|a: int|
                                0 <= a < j + 1 && genome@.has_neuron(#[trigger] members[a]) implies exists|m: int|
                                0 <= m < neurons.len() && (#[trigger] neurons[m]).id == members[a] by {
                                if a < j {
                                    let m = choose|m: int|
                                        0 <= m < before.len() && (#[trigger] before[m]).id == members[a];
                                    assert(neurons[m].id == members[a]);
                                } else {
                                    assert(neurons[neurons.len() - 1].id == members[a]);
                                }
                            }
                            if genome@.complete() {
                                let now = neuron_views(neurons@);
                                let last = steps.len() as int;
                                assert forall|k: int, r: int|
                                    0 <= k < now.len() && 0 <= r < now[k].inputs.len() implies known_before(
                                    inputs@,
                                    outputs@,
                                    now,
                                    k,
                                    #[trigger] now[k].inputs[r].input_id,
                                ) by {
                                    let source = now[k].inputs[r].input_id;
                                    if k < last {
                                        assert(now[k] == steps[k]);
                                        assert(known_before(inputs@, outputs@, steps, k, steps[k].inputs[r].input_id));
                                        if !inputs@.contains(source) && !outputs@.contains(source) {
                                            let m = choose|m: int| 0 <= m < k && (#[trigger] steps[m]).id == source;
                                            assert(now[m].id == source);
                                        }
                                    } else {
                                        lemma_reads_come_from_links(genome@.links, n, r);
                                        let i = choose|i: int|
                                            0 <= i < genome@.links.len() && (#[trigger] genome@.links[i]).is_enabled
                                                && genome@.links[i].id.out_id == n && genome@.links[i].id.in_id
                                                == reads(genome@.links, n)[r].input_id && genome@.links[i].weight
                                                == reads(genome@.links, n)[r].weight;
                                        let link = genome@.links[i];
                                        genome@.links.lemma_filter_contains(|l: LinkGene| l.is_enabled, i);
                                        let at = choose|at: int| 0 <= at < active.len() && active[at] == link;
                                        assert(views[t as int].to_set().contains(n)) by {
                                            assert(members@[j as int] == n);
                                        }
                                        assert(layer(inputs@, outputs@, active, t as nat).contains(n));
                                        let known = satisfied_before(inputs@, outputs@, active, t as nat);
                                        assert(ready(active, known, n));
                                        assert(active[at].id.out_id == n);
                                        assert(known.contains(source));
                                        lemma_satisfied_members(inputs@, outputs@, active, views, t as nat, source);
                                        if !inputs@.contains(source) {
                                            let s = choose|s: int| 0 <= s < t && (#[trigger] views[s]).contains(source);
                                            assert(genome@.has_neuron(genome@.links[i].id.in_id));
                                            let m = choose|m: int|
                                                0 <= m < before.len() && (#[trigger] before[m]).id == source;
                                            assert(now[m].id == source);
                                        }
                                    }
                                }
                            }
                        }
                    },
                    None => {
                        proof {
                            assert(!genome@.has_neuron(n));
                        }
                    },
                }
                j += 1;
            }
            proof {
                assert(members@.take(members.len() as int) == members@);
                assert(views.take(t + 1) == views.take(t as int).push(views[t as int]));
                views.take(t as int).lemma_flatten_push(views[t as int]);
                assert forall|s: int, x: i32|
                    0 <= s < t + 1 && #[trigger] views[s].contains(x) && genome@.has_neuron(x) implies exists|m: int|
                    0 <= m < neurons.len() && (#[trigger] neurons[m]).id == x by {
                    if s == t {
                        let a = choose|a: int| 0 <= a < members@.len() && members@[a] == x;
                        assert(genome@.has_neuron(members[a]));
                    }
                }
            }
            t += 1;
        }
        assert(views.take(layers.len() as int) == views);
        let ghost steps = neuron_views(neurons@);
        let ghost covered = neurons@;
        let net = FeedForwardNeuralNetwork { input_ids: inputs, output_ids: outputs, neurons };
        proof {
            assert(net@.neurons == steps);
            if genome@.complete() && acyclic(genome@.links) {
                lemma_enabled_acyclic(genome@.links);
                assert(net@.input_ids == genome@.input_ids());
                assert(net@.output_ids == genome@.output_ids());
                assert forall|x: i32|
                    #[trigger] required_ids(
                        genome@.input_ids(),
                        genome@.output_ids(),
                        enabled(genome@.links),
                    ).contains(x) && !genome@.input_ids().contains(x) implies net@.has_step(x) by {
                    lemma_layers_hold_all_required(net@.input_ids, net@.output_ids, active, views, x);
                    let k = choose|k: int| 0 <= k < views.len() && (#[trigger] views[k]).contains(x);
                    let depth = choose|depth: nat|
                        required_within(net@.input_ids, net@.output_ids, active, depth).contains(x);
                    lemma_required_is_named(net@.input_ids, net@.output_ids, active, depth, x);
                    if net@.output_ids.contains(x) {
                        let o = choose|o: int| 0 <= o < net@.output_ids.len() && net@.output_ids[o] == x;
                        assert(genome@.is_output(x));
                    } else {
                        let at = choose|at: int| 0 <= at < active.len() && (#[trigger] active[at]).id.in_id == x;
                        assert(active.contains(active[at]));
                        genome@.links.lemma_filter_contains_rev(|l: LinkGene| l.is_enabled, active[at]);
                        let i = choose|i: int| 0 <= i < genome@.links.len() && genome@.links[i] == active[at];
                        assert(genome@.has_neuron(genome@.links[i].id.in_id));
                    }
                    assert(views[k].contains(x) && genome@.has_neuron(x));
                    let m = choose|m: int| 0 <= m < covered.len() && (#[trigger] covered[m]).id == x;
                    assert(steps[m].id == x);
                }
            }
        }
        net
    }
}

} // verus!
