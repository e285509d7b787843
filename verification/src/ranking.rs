//! Ranking scored candidates: nearest first, at most as many as asked for.

use crate::binary32::ordinal;
use crate::binary32::rank;
use crate::distance::DistanceNode;
use vstd::prelude::*;

verus! {

/// Whether the nodes stand nearest first: no node is nearer than one before
/// it.
pub open spec fn ascending<K>(nodes: Seq<DistanceNode<K>>) -> bool {
    forall|i: int, j: int|
        0 <= i < j < nodes.len() ==> ordinal((#[trigger] nodes[i]).distance) <= ordinal(
            (#[trigger] nodes[j]).distance,
        )
}

/// Whether no two nodes are at the same distance.
pub open spec fn apart<K>(nodes: Seq<DistanceNode<K>>) -> bool {
    forall|i: int, j: int|
        0 <= i < j < nodes.len() ==> ordinal((#[trigger] nodes[i]).distance) != ordinal(
            (#[trigger] nodes[j]).distance,
        )
}

/// Whether the nodes stand in strict order: each is farther than the one
/// before it.
pub open spec fn strictly_ascending<K>(nodes: Seq<DistanceNode<K>>) -> bool {
    forall|i: int, j: int|
        0 <= i < j < nodes.len() ==> ordinal((#[trigger] nodes[i]).distance) < ordinal(
            (#[trigger] nodes[j]).distance,
        )
}

/// Whether no two nodes have the same key.
pub open spec fn distinct<K>(nodes: Seq<DistanceNode<K>>) -> bool {
    forall|i: int, j: int|
        0 <= i < j < nodes.len() ==> (#[trigger] nodes[i]).key != (#[trigger] nodes[j]).key
}

/// Where a node at `distance` goes among ascending nodes: behind the last
/// node that is not farther than it.
pub open spec fn slot<K>(nodes: Seq<DistanceNode<K>>, distance: u32) -> int
    decreases nodes.len(),
{
    if nodes.len() == 0 {
        0
    } else if ordinal(nodes.last().distance) <= ordinal(distance) {
        nodes.len() as int
    } else {
        slot(nodes.drop_last(), distance)
    }
}

/// The nodes in ascending order of distance; nodes at one distance keep the
/// order in which they came. The order is that of the ordinals, which is
/// total: a node whose distance is a NaN stands behind every number.
pub open spec fn ranked<K>(nodes: Seq<DistanceNode<K>>) -> Seq<DistanceNode<K>>
    decreases nodes.len(),
{
    if nodes.len() == 0 {
        nodes
    } else {
        let before = ranked(nodes.drop_last());
        before.insert(slot(before, nodes.last().distance), nodes.last())
    }
}

/// The `count` nearest of the nodes, nearest first; all of them where there
/// are no more than `count`.
pub open spec fn nearest_of<K>(nodes: Seq<DistanceNode<K>>, count: nat) -> Seq<DistanceNode<K>> {
    if count < nodes.len() {
        ranked(nodes).take(count as int)
    } else {
        ranked(nodes)
    }
}

/// `slot` is the one place that parts the nodes that are not farther from
/// those that are, given that the nodes ascend.
pub proof fn lemma_slot<K>(nodes: Seq<DistanceNode<K>>, distance: u32)
    ensures
        0 <= slot(nodes, distance) <= nodes.len(),
        forall|i: int|
            slot(nodes, distance) <= i < nodes.len() ==> ordinal((#[trigger] nodes[i]).distance)
                > ordinal(distance),
        slot(nodes, distance) > 0 ==> ordinal(nodes[slot(nodes, distance) - 1].distance)
            <= ordinal(distance),
        ascending(nodes) ==> forall|i: int|
            0 <= i < slot(nodes, distance) ==> ordinal((#[trigger] nodes[i]).distance) <= ordinal(
                distance,
            ),
    decreases nodes.len(),
{
    if nodes.len() > 0 && ordinal(nodes.last().distance) > ordinal(distance) {
        let front = nodes.drop_last();
        lemma_slot(front, distance);
        assert forall|i: int| slot(nodes, distance) <= i < nodes.len() implies ordinal(
            (#[trigger] nodes[i]).distance,
        ) > ordinal(distance) by {
            if i < front.len() {
                assert(front[i] == nodes[i]);
            }
        }
        if slot(nodes, distance) > 0 {
            assert(front[slot(nodes, distance) - 1] == nodes[slot(nodes, distance) - 1]);
        }
    }
    if ascending(nodes) && slot(nodes, distance) > 0 {
        let last = slot(nodes, distance) - 1;
        assert forall|i: int| 0 <= i < slot(nodes, distance) implies ordinal(
            (#[trigger] nodes[i]).distance,
        ) <= ordinal(distance) by {
            if i < last {
                assert(ordinal(nodes[i].distance) <= ordinal(nodes[last].distance));
            }
        }
    }
}

/// A place that parts the nodes as `slot` does is `slot`.
pub proof fn lemma_slot_is<K>(nodes: Seq<DistanceNode<K>>, distance: u32, at: int)
    requires
        0 <= at <= nodes.len(),
        forall|i: int|
            at <= i < nodes.len() ==> ordinal((#[trigger] nodes[i]).distance) > ordinal(distance),
        at > 0 ==> ordinal(nodes[at - 1].distance) <= ordinal(distance),
    ensures
        slot(nodes, distance) == at,
{
    lemma_slot(nodes, distance);
    let s = slot(nodes, distance);
    if s < at {
        assert(ordinal(nodes[at - 1].distance) > ordinal(distance));
    } else if at < s {
        assert(ordinal(nodes[s - 1].distance) > ordinal(distance));
    }
}

/// Ranking rearranges: nothing is added, dropped or changed. The ranked
/// nodes ascend, and keys that differed still differ.
pub proof fn lemma_ranked<K>(nodes: Seq<DistanceNode<K>>)
    ensures
        ranked(nodes).len() == nodes.len(),
        ranked(nodes).to_multiset() == nodes.to_multiset(),
        forall|node: DistanceNode<K>| ranked(nodes).contains(node) <==> nodes.contains(node),
        ascending(ranked(nodes)),
        distinct(nodes) ==> distinct(ranked(nodes)),
    decreases nodes.len(),
{
    broadcast use vstd::seq_lib::to_multiset_insert, vstd::seq_lib::to_multiset_build;

    if nodes.len() == 0 {
        return ;
    }
    let front = nodes.drop_last();
    let node = nodes.last();
    let before = ranked(front);
    let at = slot(before, node.distance);
    let after = ranked(nodes);
    lemma_ranked(front);
    lemma_slot(before, node.distance);
    assert(nodes =~= front.push(node));
    assert(after.len() == before.len() + 1);
    assert forall|other: DistanceNode<K>| after.contains(other) <==> nodes.contains(other) by {
        if after.contains(other) {
            let i = choose|i: int| 0 <= i < after.len() && after[i] == other;
            lemma_inserted(before, at, node, i);
            if i != at {
                let m = if i < at {
                    i
                } else {
                    i - 1
                };
                assert(before[m] == other);
                assert(before.contains(other));
                assert(front.contains(other));
                let w = choose|w: int| 0 <= w < front.len() && front[w] == other;
                assert(nodes[w] == other);
            } else {
                assert(nodes[nodes.len() - 1] == other);
            }
        }
        if nodes.contains(other) {
            let w = choose|w: int| 0 <= w < nodes.len() && nodes[w] == other;
            if w < front.len() {
                assert(front[w] == other);
                assert(front.contains(other));
                assert(before.contains(other));
                let i = choose|i: int| 0 <= i < before.len() && before[i] == other;
                if i < at {
                    lemma_inserted(before, at, node, i);
                    assert(after[i] == other);
                } else {
                    lemma_inserted(before, at, node, i + 1);
                    assert(after[i + 1] == other);
                }
            } else {
                lemma_inserted(before, at, node, at);
                assert(after[at] == other);
            }
        }
    }
    assert forall|i: int, j: int| 0 <= i < j < after.len() implies ordinal(
        (#[trigger] after[i]).distance,
    ) <= ordinal((#[trigger] after[j]).distance) by {
        lemma_inserted(before, at, node, i);
        lemma_inserted(before, at, node, j);
        if i < at && j > at {
            assert(ordinal(before[i].distance) <= ordinal(before[j - 1].distance));
        } else if i > at {
            assert(ordinal(before[i - 1].distance) <= ordinal(before[j - 1].distance));
        } else if j < at {
            assert(ordinal(before[i].distance) <= ordinal(before[j].distance));
        }
    }
    if distinct(nodes) {
        assert(distinct(front)) by {
            assert forall|i: int, j: int| 0 <= i < j < front.len() implies (#[trigger] front[i]).key
                != (#[trigger] front[j]).key by {
                assert(front[i] == nodes[i] && front[j] == nodes[j]);
            }
        }
        assert forall|i: int| 0 <= i < before.len() implies (#[trigger] before[i]).key
            != node.key by {
            assert(before.contains(before[i]));
            assert(front.contains(before[i]));
            let w = choose|w: int| 0 <= w < front.len() && front[w] == before[i];
            assert(nodes[w].key != nodes[nodes.len() - 1].key);
        }
        assert forall|i: int, j: int| 0 <= i < j < after.len() implies (#[trigger] after[i]).key
            != (#[trigger] after[j]).key by {
            lemma_inserted(before, at, node, i);
            lemma_inserted(before, at, node, j);
            if i < at && j > at {
                assert(before[i].key != before[j - 1].key);
            } else if i > at {
                assert(before[i - 1].key != before[j - 1].key);
            } else if j < at {
                assert(before[i].key != before[j].key);
            } else if i == at {
                assert(before[j - 1].key != node.key);
            } else {
                assert(before[i].key != node.key);
            }
        }
    }
}

/// What stands at each place after an insertion.
proof fn lemma_inserted<K>(nodes: Seq<DistanceNode<K>>, at: int, node: DistanceNode<K>, i: int)
    requires
        0 <= at <= nodes.len(),
        0 <= i <= nodes.len(),
    ensures
        nodes.insert(at, node)[i] == if i < at {
            nodes[i]
        } else if i == at {
            node
        } else {
            nodes[i - 1]
        },
{
}

/// Cutting ascending nodes down to `count` before a node is put in its
/// place and the result is cut again leaves the same as cutting once.
pub proof fn lemma_cut_early<K>(nodes: Seq<DistanceNode<K>>, count: int, node: DistanceNode<K>)
    requires
        ascending(nodes),
        0 <= count < nodes.len(),
    ensures
        nodes.insert(slot(nodes, node.distance), node).take(count) == nodes.take(count).insert(
            slot(nodes.take(count), node.distance),
            node,
        ).take(count),
{
    let at = slot(nodes, node.distance);
    let cut = nodes.take(count);
    lemma_slot(nodes, node.distance);
    let low = if at < count {
        at
    } else {
        count
    };
    assert forall|i: int| low <= i < cut.len() implies ordinal((#[trigger] cut[i]).distance)
        > ordinal(node.distance) by {
        assert(cut[i] == nodes[i]);
    }
    if low > 0 {
        assert(cut[low - 1] == nodes[low - 1]);
    }
    lemma_slot_is(cut, node.distance, low);
    assert(nodes.insert(at, node).take(count) =~= cut.insert(low, node).take(count));
}

/// What the `count` nearest are: no more than `count`, and all where there
/// are no more; taken from the nodes; nearest first; with keys that differ
/// where they differed; and such that no node left out is nearer than one
/// that was taken.
pub proof fn lemma_nearest_of<K>(nodes: Seq<DistanceNode<K>>, count: nat)
    ensures
        nearest_of(nodes, count).len() == if count < nodes.len() {
            count
        } else {
            nodes.len()
        },
        ascending(nearest_of(nodes, count)),
        distinct(nodes) ==> distinct(nearest_of(nodes, count)),
        forall|node: DistanceNode<K>|
            nearest_of(nodes, count).contains(node) ==> nodes.contains(node),
        forall|node: DistanceNode<K>, j: int|
            #![trigger nodes.contains(node), nearest_of(nodes, count)[j]]
            nodes.contains(node) && !nearest_of(nodes, count).contains(node) && 0 <= j
                < nearest_of(nodes, count).len() ==> ordinal(nearest_of(nodes, count)[j].distance)
                <= ordinal(node.distance),
{
    let all = ranked(nodes);
    let best = nearest_of(nodes, count);
    lemma_ranked(nodes);
    assert forall|i: int| 0 <= i < best.len() implies #[trigger] best[i] == all[i] by {}
    assert forall|node: DistanceNode<K>| best.contains(node) implies nodes.contains(node) by {
        let i = choose|i: int| 0 <= i < best.len() && best[i] == node;
        assert(all[i] == node);
        assert(all.contains(node));
    }
    assert forall|node: DistanceNode<K>, j: int|
        #![trigger nodes.contains(node), best[j]]
        nodes.contains(node) && !best.contains(node) && 0 <= j < best.len() implies ordinal(
        best[j].distance,
    ) <= ordinal(node.distance) by {
        assert(all.contains(node));
        let i = choose|i: int| 0 <= i < all.len() && all[i] == node;
        if i < best.len() {
            assert(best[i] == node);
        }
        assert(ordinal(all[j].distance) <= ordinal(all[i].distance));
    }
}

/// Where no two candidates are at the same distance, the nearest stand in
/// strict order.
pub proof fn lemma_nearest_strictly<K>(nodes: Seq<DistanceNode<K>>, count: nat)
    requires
        apart(nodes),
    ensures
        strictly_ascending(nearest_of(nodes, count)),
{
    let best = nearest_of(nodes, count);
    lemma_ranked(nodes);
    lemma_ranked_apart(nodes);
    assert forall|i: int, j: int| 0 <= i < j < best.len() implies ordinal(
        (#[trigger] best[i]).distance,
    ) < ordinal((#[trigger] best[j]).distance) by {
        assert(best[i] == ranked(nodes)[i] && best[j] == ranked(nodes)[j]);
        assert(ordinal(ranked(nodes)[i].distance) <= ordinal(ranked(nodes)[j].distance));
        assert(ordinal(ranked(nodes)[i].distance) != ordinal(ranked(nodes)[j].distance));
    }
}

/// Ranking keeps distances apart that were apart.
pub proof fn lemma_ranked_apart<K>(nodes: Seq<DistanceNode<K>>)
    requires
        apart(nodes),
    ensures
        apart(ranked(nodes)),
    decreases nodes.len(),
{
    if nodes.len() == 0 {
        return ;
    }
    let front = nodes.drop_last();
    let node = nodes.last();
    let before = ranked(front);
    let at = slot(before, node.distance);
    let after = ranked(nodes);
    assert(apart(front)) by {
        assert forall|i: int, j: int| 0 <= i < j < front.len() implies ordinal(
            (#[trigger] front[i]).distance,
        ) != ordinal((#[trigger] front[j]).distance) by {
            assert(front[i] == nodes[i] && front[j] == nodes[j]);
        }
    }
    lemma_ranked_apart(front);
    lemma_ranked(front);
    lemma_slot(before, node.distance);
    assert forall|i: int| 0 <= i < before.len() implies ordinal((#[trigger] before[i]).distance)
        != ordinal(node.distance) by {
        assert(before.contains(before[i]));
        assert(front.contains(before[i]));
        let w = choose|w: int| 0 <= w < front.len() && front[w] == before[i];
        assert(ordinal(nodes[w].distance) != ordinal(nodes[nodes.len() - 1].distance));
    }
    assert forall|i: int, j: int| 0 <= i < j < after.len() implies ordinal(
        (#[trigger] after[i]).distance,
    ) != ordinal((#[trigger] after[j]).distance) by {
        lemma_inserted(before, at, node, i);
        lemma_inserted(before, at, node, j);
        if i < at && j > at {
            assert(ordinal(before[i].distance) != ordinal(before[j - 1].distance));
        } else if i > at {
            assert(ordinal(before[i - 1].distance) != ordinal(before[j - 1].distance));
        } else if j < at {
            assert(ordinal(before[i].distance) != ordinal(before[j].distance));
        } else if i == at {
            assert(ordinal(before[j - 1].distance) != ordinal(node.distance));
        } else {
            assert(ordinal(before[i].distance) != ordinal(node.distance));
        }
    }
}

/// The `count` nearest of the scored candidates, nearest first. Candidates
/// at one distance stay in the order in which they were given.
pub fn top<K: Copy>(scored: &Vec<DistanceNode<K>>, count: usize) -> (best: Vec<DistanceNode<K>>)
    ensures
        best@ == nearest_of(scored@, count as nat),
{
    let mut best: Vec<DistanceNode<K>> = Vec::new();
    let mut i: usize = 0;
    while i < scored.len()
        invariant
            i <= scored.len(),
            best@ == nearest_of(scored@.take(i as int), count as nat),
        decreases scored.len() - i,
    {
        let node = scored[i];
        let own = rank(node.distance);
        let ghost seen = scored@.take(i as int);
        proof {
            lemma_ranked(seen);
            assert(scored@.take(i + 1).drop_last() =~= seen);
            assert(ascending(best@)) by {
                assert forall|a: int, b: int| 0 <= a < b < best@.len() implies ordinal(
                    (#[trigger] best@[a]).distance,
                ) <= ordinal((#[trigger] best@[b]).distance) by {
                    assert(best@[a] == ranked(seen)[a] && best@[b] == ranked(seen)[b]);
                }
            }
        }
        let mut at: usize = best.len();
        while at > 0 && rank(best[at - 1].distance) > own
            invariant
                at <= best.len(),
                own == ordinal(node.distance),
                forall|j: int|
                    at <= j < best.len() ==> ordinal((#[trigger] best@[j]).distance) > own,
            decreases at,
        {
            at -= 1;
        }
        proof {
            lemma_slot_is(best@, node.distance, at as int);
            if count < seen.len() {
                lemma_cut_early(ranked(seen), count as int, node);
            }
        }
        best.insert(at, node);
        if best.len() > count {
            best.truncate(count);
        }
        i += 1;
        proof {
            assert(best@ =~= nearest_of(scored@.take(i as int), count as nat));
        }
    }
    proof {
        assert(scored@.take(i as int) =~= scored@);
    }
    best
}

} // verus!
