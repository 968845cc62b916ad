//! Walks along links, reachability and the absence of cycles.

use vstd::prelude::*;
use crate::genome::LinkGene;

verus! {

/// Whether some link leads from `a` to `b`.
pub open spec fn joins(links: Seq<LinkGene>, a: i32, b: i32) -> bool {
    exists|i: int| 0 <= i < links.len() && (#[trigger] links[i]).id.in_id == a && links[i].id.out_id == b
}

/// Whether `walk` is a sequence of one or more neurons in which each is
/// joined to the next by a link.
pub open spec fn is_walk(links: Seq<LinkGene>, walk: Seq<i32>) -> bool {
    &&& walk.len() >= 1
    &&& forall|i: int| 0 <= i < walk.len() - 1 ==> joins(links, #[trigger] walk[i], walk[i + 1])
}

/// Whether `b` can be reached from `a` along zero or more links.
pub open spec fn reaches(links: Seq<LinkGene>, a: i32, b: i32) -> bool {
    exists|walk: Seq<i32>| #[trigger] is_walk(links, walk) && walk.first() == a && walk.last() == b
}

/// Whether no neuron can be reached from itself along one or more links.
pub open spec fn acyclic(links: Seq<LinkGene>) -> bool {
    forall|walk: Seq<i32>| #[trigger] is_walk(links, walk) && walk.len() >= 2 ==> walk.first() != walk.last()
}

/// Whether every pair of neurons that `part` joins is joined by `whole` too.
pub open spec fn subgraph(part: Seq<LinkGene>, whole: Seq<LinkGene>) -> bool {
    forall|i: int|
        0 <= i < part.len() ==> joins(whole, (#[trigger] part[i]).id.in_id, part[i].id.out_id)
}

/// How many of the first `n` ids are outside `found`.
pub open spec fn missing(ids: Seq<i32>, found: Set<i32>, n: nat) -> nat
    decreases n,
{
    if n == 0 {
        0
    } else {
        missing(ids, found, (n - 1) as nat) + if found.contains(ids[n - 1]) {
            0nat
        } else {
            1nat
        }
    }
}

/// Finding more ids leaves fewer missing, and strictly fewer if one of the
/// listed ids is newly found.
pub proof fn lemma_missing_shrinks(ids: Seq<i32>, small: Set<i32>, large: Set<i32>, n: nat)
    requires
        small.subset_of(large),
        n <= ids.len(),
    ensures
        missing(ids, large, n) <= missing(ids, small, n),
        (exists|j: int| 0 <= j < n && !small.contains(ids[j]) && large.contains(ids[j])) ==> missing(
            ids,
            large,
            n,
        ) < missing(ids, small, n),
    decreases n,
{
    if n > 0 {
        lemma_missing_shrinks(ids, small, large, (n - 1) as nat);
        if exists|j: int| 0 <= j < n && !small.contains(ids[j]) && large.contains(ids[j]) {
            let j = choose|j: int| 0 <= j < n && !small.contains(ids[j]) && large.contains(ids[j]);
            if j < n - 1 {
                assert(0 <= j < n - 1 && !small.contains(ids[j]) && large.contains(ids[j]));
            }
        }
    }
}

/// Every neuron reaches itself.
pub proof fn lemma_reaches_itself(links: Seq<LinkGene>, a: i32)
    ensures
        reaches(links, a, a),
{
    let walk = seq![a];
    assert(is_walk(links, walk));
    assert(walk.first() == a && walk.last() == a);
}

/// A walk can be continued along a link.
pub proof fn lemma_reaches_one_more(links: Seq<LinkGene>, a: i32, b: i32, c: i32)
    requires
        reaches(links, a, b),
        joins(links, b, c),
    ensures
        reaches(links, a, c),
{
    let walk = choose|walk: Seq<i32>| #[trigger] is_walk(links, walk) && walk.first() == a && walk.last() == b;
    let longer = walk.push(c);
    assert forall|i: int| 0 <= i < longer.len() - 1 implies joins(links, #[trigger] longer[i], longer[i + 1]) by {
        if i < walk.len() - 1 {
            assert(joins(links, walk[i], walk[i + 1]));
        }
    }
    assert(is_walk(links, longer));
    assert(longer.first() == a && longer.last() == c);
}

/// A walk that starts inside a set which no link leaves stays inside it.
pub proof fn lemma_walk_stays_inside(links: Seq<LinkGene>, inside: Set<i32>, walk: Seq<i32>, k: int)
    requires
        is_walk(links, walk),
        inside.contains(walk.first()),
        forall|i: int|
            0 <= i < links.len() && inside.contains((#[trigger] links[i]).id.in_id) ==> inside.contains(
                links[i].id.out_id,
            ),
        0 <= k < walk.len(),
    ensures
        inside.contains(walk[k]),
    decreases k,
{
    if k > 0 {
        lemma_walk_stays_inside(links, inside, walk, k - 1);
        assert(joins(links, walk[k - 1], walk[k - 1 + 1]));
    }
}

/// A walk of a subgraph is a walk of the whole graph.
pub proof fn lemma_walk_in_subgraph(part: Seq<LinkGene>, whole: Seq<LinkGene>, walk: Seq<i32>)
    requires
        subgraph(part, whole),
        is_walk(part, walk),
    ensures
        is_walk(whole, walk),
{
    assert forall|i: int| 0 <= i < walk.len() - 1 implies joins(whole, #[trigger] walk[i], walk[i + 1]) by {
        assert(joins(part, walk[i], walk[i + 1]));
        let at = choose|at: int|
            0 <= at < part.len() && (#[trigger] part[at]).id.in_id == walk[i] && part[at].id.out_id == walk[i + 1];
        assert(joins(whole, part[at].id.in_id, part[at].id.out_id));
    }
}

/// A subgraph of a graph without cycles has no cycles.
pub proof fn lemma_subgraph_acyclic(part: Seq<LinkGene>, whole: Seq<LinkGene>)
    requires
        subgraph(part, whole),
        acyclic(whole),
    ensures
        acyclic(part),
{
    assert forall|walk: Seq<i32>| #[trigger] is_walk(part, walk) && walk.len() >= 2 implies walk.first()
        != walk.last() by {
        lemma_walk_in_subgraph(part, whole, walk);
    }
}

/// What a subgraph reaches, the whole graph reaches.
pub proof fn lemma_subgraph_reaches(part: Seq<LinkGene>, whole: Seq<LinkGene>, a: i32, b: i32)
    requires
        subgraph(part, whole),
        reaches(part, a, b),
    ensures
        reaches(whole, a, b),
{
    let walk = choose|walk: Seq<i32>| #[trigger] is_walk(part, walk) && walk.first() == a && walk.last() == b;
    lemma_walk_in_subgraph(part, whole, walk);
}

/// Whether `more` joins what `links` joins and, besides, `s` to `t`.
pub open spec fn one_more_link(links: Seq<LinkGene>, more: Seq<LinkGene>, s: i32, t: i32) -> bool {
    forall|a: i32, b: i32| #[trigger] joins(more, a, b) ==> joins(links, a, b) || (a == s && b == t)
}

/// A walk that ends in `s`, along links of which only the one from `s` to
/// `t` is new, shows that the old links lead from its start to `s`.
pub proof fn lemma_walk_ends_early(links: Seq<LinkGene>, more: Seq<LinkGene>, s: i32, t: i32, walk: Seq<i32>, k: int)
    requires
        one_more_link(links, more, s, t),
        is_walk(more, walk),
        walk.last() == s,
        0 <= k <= walk.len() - 1,
        forall|i: int| 0 <= i < k ==> joins(links, #[trigger] walk[i], walk[i + 1]),
    ensures
        reaches(links, walk.first(), s),
    decreases walk.len() - k,
{
    if k == walk.len() - 1 {
        assert(is_walk(links, walk));
    } else if joins(links, walk[k], walk[k + 1]) {
        lemma_walk_ends_early(links, more, s, t, walk, k + 1);
    } else {
        assert(joins(more, walk[k], walk[k + 1]));
        let front = walk.take(k + 1);
        assert forall|i: int| 0 <= i < front.len() - 1 implies joins(links, #[trigger] front[i], front[i + 1]) by {
            assert(joins(links, walk[i], walk[i + 1]));
        }
        assert(is_walk(links, front));
        assert(front.first() == walk.first() && front.last() == s);
    }
}

/// A link from `s` to `t` closes no cycle if `s` cannot be reached from `t`.
pub proof fn lemma_link_closes_no_cycle(links: Seq<LinkGene>, more: Seq<LinkGene>, s: i32, t: i32)
    requires
        acyclic(links),
        !reaches(links, t, s),
        one_more_link(links, more, s, t),
    ensures
        acyclic(more),
{
    assert forall|walk: Seq<i32>| #[trigger] is_walk(more, walk) && walk.len() >= 2 implies walk.first()
        != walk.last() by {
        if walk.first() == walk.last() {
            if forall|i: int| 0 <= i < walk.len() - 1 ==> joins(links, #[trigger] walk[i], walk[i + 1]) {
                assert(is_walk(links, walk));
            } else {
                let i = choose|i: int| 0 <= i < walk.len() - 1 && !joins(links, #[trigger] walk[i], walk[i + 1]);
                assert(joins(more, walk[i], walk[i + 1]));
                assert(walk[i] == s && walk[i + 1] == t);
                let round = walk.subrange(i + 1, walk.len() as int) + walk.subrange(1, i + 1);
                let cut = walk.len() - (i + 1);
                assert forall|m: int| 0 <= m < round.len() - 1 implies joins(
                    more,
                    #[trigger] round[m],
                    round[m + 1],
                ) by {
                    if m < cut - 1 {
                        assert(round[m] == walk[i + 1 + m]);
                        assert(round[m + 1] == walk[i + 1 + m + 1]);
                        assert(joins(more, walk[i + 1 + m], walk[i + 1 + m + 1]));
                    } else if m == cut - 1 {
                        assert(round[m] == walk[walk.len() - 1]);
                        assert(round[m + 1] == walk[1]);
                        assert(joins(more, walk[0int], walk[0int + 1]));
                    } else {
                        assert(round[m] == walk[m - cut + 1]);
                        assert(round[m + 1] == walk[m - cut + 1 + 1]);
                        assert(joins(more, walk[m - cut + 1], walk[m - cut + 1 + 1]));
                    }
                }
                assert(is_walk(more, round));
                assert(round.first() == t);
                assert(round.last() == s) by {
                    if i == 0 {
                        assert(round.last() == walk[walk.len() - 1]);
                    } else {
                        assert(round.last() == walk[i]);
                    }
                }
                lemma_walk_ends_early(links, more, s, t, round, 0);
            }
        }
    }
}

/// The links that are switched on, in their order.
pub open spec fn enabled(links: Seq<LinkGene>) -> Seq<LinkGene> {
    links.filter(|l: LinkGene| l.is_enabled)
}

/// The enabled links span a subgraph.
pub proof fn lemma_enabled_subgraph(links: Seq<LinkGene>)
    ensures
        subgraph(enabled(links), links),
{
    let on = enabled(links);
    assert forall|i: int| 0 <= i < on.len() implies joins(links, (#[trigger] on[i]).id.in_id, on[i].id.out_id) by {
        assert(on.contains(on[i]));
        links.lemma_filter_contains_rev(|l: LinkGene| l.is_enabled, on[i]);
        let at = choose|at: int| 0 <= at < links.len() && links[at] == on[i];
        assert(links[at].id.in_id == on[i].id.in_id);
    }
}

/// If the links have no cycle, the enabled links have none.
pub proof fn lemma_enabled_acyclic(links: Seq<LinkGene>)
    requires
        acyclic(links),
    ensures
        acyclic(enabled(links)),
{
    lemma_enabled_subgraph(links);
    lemma_subgraph_acyclic(enabled(links), links);
}

/// Links that are all taken from `whole` span a subgraph of it, and those of
/// them that are enabled span a subgraph of its enabled links.
pub proof fn lemma_kept_links(part: Seq<LinkGene>, whole: Seq<LinkGene>)
    requires
        forall|i: int| 0 <= i < part.len() ==> whole.contains(#[trigger] part[i]),
    ensures
        subgraph(part, whole),
        subgraph(enabled(part), enabled(whole)),
{
    assert forall|i: int| 0 <= i < part.len() implies joins(
        whole,
        (#[trigger] part[i]).id.in_id,
        part[i].id.out_id,
    ) by {
        let at = choose|at: int| 0 <= at < whole.len() && whole[at] == part[i];
        assert(whole[at].id.in_id == part[i].id.in_id);
    }
    let on = enabled(part);
    let all_on = enabled(whole);
    assert forall|i: int| 0 <= i < on.len() implies joins(
        all_on,
        (#[trigger] on[i]).id.in_id,
        on[i].id.out_id,
    ) by {
        assert(on.contains(on[i]));
        part.lemma_filter_pred(|l: LinkGene| l.is_enabled, i);
        part.lemma_filter_contains_rev(|l: LinkGene| l.is_enabled, on[i]);
        let k = choose|k: int| 0 <= k < part.len() && part[k] == on[i];
        let at = choose|at: int| 0 <= at < whole.len() && whole[at] == part[k];
        whole.lemma_filter_contains(|l: LinkGene| l.is_enabled, at);
        let to = choose|to: int| 0 <= to < all_on.len() && all_on[to] == whole[at];
        assert(all_on[to].id.in_id == on[i].id.in_id);
    }
}

/// In a graph without cycles no link can be walked back.
pub proof fn lemma_no_way_back(links: Seq<LinkGene>, a: i32, b: i32)
    requires
        acyclic(links),
        joins(links, a, b),
    ensures
        !reaches(links, b, a),
{
    if reaches(links, b, a) {
        let walk = choose|walk: Seq<i32>| #[trigger] is_walk(links, walk) && walk.first() == b && walk.last() == a;
        let round = walk.push(b);
        assert forall|i: int| 0 <= i < round.len() - 1 implies joins(links, #[trigger] round[i], round[i + 1]) by {
            if i < walk.len() - 1 {
                assert(joins(links, walk[i], walk[i + 1]));
            }
        }
        assert(is_walk(links, round));
        assert(round.first() == round.last());
    }
}

/// In a graph without cycles no walk comes by a neuron twice.
pub proof fn lemma_walk_never_repeats(links: Seq<LinkGene>, walk: Seq<i32>)
    requires
        acyclic(links),
        is_walk(links, walk),
    ensures
        walk.no_duplicates(),
{
    assert forall|i: int, j: int| 0 <= i < walk.len() && 0 <= j < walk.len() && i != j implies walk[i]
        != walk[j] by {
        let low = if i < j { i } else { j };
        let high = if i < j { j } else { i };
        let round = walk.subrange(low, high + 1);
        assert forall|m: int| 0 <= m < round.len() - 1 implies joins(links, #[trigger] round[m], round[m + 1]) by {
            assert(round[m] == walk[low + m]);
            assert(round[m + 1] == walk[low + m + 1]);
            assert(joins(links, walk[low + m], walk[low + m + 1]));
        }
        assert(is_walk(links, round));
        assert(round.first() == walk[low] && round.last() == walk[high]);
    }
}

/// Links with the same ids, one by one, join the same neurons.
pub proof fn lemma_same_ids_subgraph(part: Seq<LinkGene>, whole: Seq<LinkGene>)
    requires
        part.len() == whole.len(),
        forall|k: int| 0 <= k < part.len() ==> (#[trigger] part[k]).id == whole[k].id,
    ensures
        subgraph(part, whole),
{
    assert forall|i: int| 0 <= i < part.len() implies joins(
        whole,
        (#[trigger] part[i]).id.in_id,
        part[i].id.out_id,
    ) by {
        assert(whole[i].id == part[i].id);
    }
}


/// After a link was appended the links join what they joined before and,
/// besides, the ends of the new link.
pub proof fn lemma_push_one_more_link(links: Seq<LinkGene>, added: LinkGene)
    ensures
        one_more_link(links, links.push(added), added.id.in_id, added.id.out_id),
{
    let more = links.push(added);
    assert forall|a: i32, b: i32| #[trigger] joins(more, a, b) implies joins(links, a, b) || (a
        == added.id.in_id && b == added.id.out_id) by {
        let i = choose|i: int| 0 <= i < more.len() && (#[trigger] more[i]).id.in_id == a && more[i].id.out_id == b;
        if i < links.len() {
            assert(links[i].id.in_id == a);
        }
    }
}

} // verus!
