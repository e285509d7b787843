//! What a query reaches: the items under the pattern of the query point and
//! under the patterns one bit away from it, in every table.

use crate::hyperindex::holds;
use crate::hyperindex::lookup;
use crate::hyperindex::Group;
use crate::pattern::probes;
use vstd::prelude::*;

verus! {

/// Whether a query that hashed to the pattern reaches the item in this
/// table: the item lies under the pattern or under one that differs from it
/// in a single bit.
pub open spec fn near<K>(groups: Seq<Group<K>>, pattern: Seq<bool>, item: K) -> bool {
    exists|j: int| 0 <= j <= pattern.len() && holds(groups, #[trigger] probes(pattern)[j], item)
}

/// Whether a query reaches the item in some table, `patterns` giving the
/// pattern that the query point has in each.
pub open spec fn candidate<K>(tables: Seq<Seq<Group<K>>>, patterns: Seq<Seq<bool>>, item: K) -> bool {
    exists|t: int| 0 <= t < tables.len() && near(#[trigger] tables[t], patterns[t], item)
}

/// The list after the items were taken in: each item that the list does not
/// hold yet goes behind it, in the order of the items.
pub open spec fn taken_in<K>(found: Seq<K>, items: Seq<K>) -> Seq<K>
    decreases items.len(),
{
    if items.len() == 0 {
        found
    } else {
        let before = taken_in(found, items.drop_last());
        if before.contains(items.last()) {
            before
        } else {
            before.push(items.last())
        }
    }
}

/// The list after the buckets under the first `n` probes of the pattern
/// were taken in, one after the other.
pub open spec fn probed<K>(
    found: Seq<K>,
    groups: Seq<Group<K>>,
    pattern: Seq<bool>,
    n: nat,
) -> Seq<K>
    decreases n,
{
    if n == 0 {
        found
    } else {
        let before = probed(found, groups, pattern, (n - 1) as nat);
        match lookup(groups, probes(pattern)[n - 1]) {
            Some(items) => taken_in(before, items),
            None => before,
        }
    }
}

/// What a query reaches in the first `n` tables, in the order in which it
/// comes upon it: table after table, probe after probe, and within a bucket
/// in the order in which the items were added.
pub open spec fn reached<K>(tables: Seq<Seq<Group<K>>>, patterns: Seq<Seq<bool>>, n: nat) -> Seq<
    K,
>
    decreases n,
{
    if n == 0 {
        Seq::empty()
    } else {
        probed(
            reached(tables, patterns, (n - 1) as nat),
            tables[n - 1],
            patterns[n - 1],
            patterns[n - 1].len() + 1,
        )
    }
}

/// What a query reaches, each item once, in the order in which the query
/// comes upon it.
pub open spec fn reach<K>(tables: Seq<Seq<Group<K>>>, patterns: Seq<Seq<bool>>) -> Seq<K> {
    reached(tables, patterns, tables.len())
}

/// Taking items in adds each new one once and nothing else.
pub proof fn lemma_taken_in<K>(found: Seq<K>, items: Seq<K>)
    requires
        found.no_duplicates(),
    ensures
        taken_in(found, items).no_duplicates(),
        forall|k: K|
            #![trigger taken_in(found, items).contains(k)]
            taken_in(found, items).contains(k) <==> found.contains(k) || items.contains(k),
    decreases items.len(),
{
    if items.len() > 0 {
        let front = items.drop_last();
        let last = items.last();
        let before = taken_in(found, front);
        let after = taken_in(found, items);
        lemma_taken_in(found, front);
        lemma_pushed(before, last);
        assert forall|k: K| after.contains(k) <==> found.contains(k) || items.contains(k) by {
            assert(before.contains(k) <==> found.contains(k) || front.contains(k));
            assert(before.push(last).contains(k) <==> before.contains(k) || k == last);
            if front.contains(k) {
                let i = choose|i: int| 0 <= i < front.len() && front[i] == k;
                assert(items[i] == k);
            }
            if items.contains(k) {
                let i = choose|i: int| 0 <= i < items.len() && items[i] == k;
                if i < front.len() {
                    assert(front[i] == k);
                }
            }
            assert(items[items.len() - 1] == last);
        }
    }
}

/// What a push does to membership, and when it keeps a list free of
/// duplicates.
pub proof fn lemma_pushed<T>(s: Seq<T>, a: T)
    ensures
        forall|x: T| s.push(a).contains(x) <==> s.contains(x) || x == a,
        s.no_duplicates() && !s.contains(a) ==> s.push(a).no_duplicates(),
{
    let after = s.push(a);
    assert forall|x: T| after.contains(x) <==> s.contains(x) || x == a by {
        if after.contains(x) {
            let i = choose|i: int| 0 <= i < after.len() && after[i] == x;
            if i < s.len() {
                assert(s[i] == x);
            }
        }
        if s.contains(x) {
            let i = choose|i: int| 0 <= i < s.len() && s[i] == x;
            assert(after[i] == x);
        }
        if x == a {
            assert(after[s.len() as int] == x);
        }
    }
    if s.no_duplicates() && !s.contains(a) {
        assert forall|i: int, j: int| 0 <= i < after.len() && 0 <= j < after.len() && i
            != j implies after[i] != after[j] by {
            if i < s.len() {
                assert(s.contains(s[i]));
            }
            if j < s.len() {
                assert(s.contains(s[j]));
            }
        }
    }
}

/// Probing one table adds what lies under the probes, each item once.
pub proof fn lemma_probed<K>(found: Seq<K>, groups: Seq<Group<K>>, pattern: Seq<bool>, n: nat)
    requires
        found.no_duplicates(),
        n <= pattern.len() + 1,
    ensures
        probed(found, groups, pattern, n).no_duplicates(),
        forall|k: K|
            #![trigger probed(found, groups, pattern, n).contains(k)]
            probed(found, groups, pattern, n).contains(k) <==> found.contains(k) || exists|j: int|
                0 <= j < n && holds(groups, #[trigger] probes(pattern)[j], k),
    decreases n,
{
    if n > 0 {
        let prev = (n - 1) as nat;
        let before = probed(found, groups, pattern, prev);
        let after = probed(found, groups, pattern, n);
        let here = probes(pattern)[n - 1];
        lemma_probed(found, groups, pattern, prev);
        match lookup(groups, here) {
            Some(items) => {
                lemma_taken_in(before, items);
            },
            None => {},
        }
        assert forall|k: K|
            after.contains(k) <==> found.contains(k) || exists|j: int|
                0 <= j < n && holds(groups, #[trigger] probes(pattern)[j], k) by {
            if before.contains(k) && !found.contains(k) {
                let j = choose|j: int|
                    0 <= j < prev && holds(groups, #[trigger] probes(pattern)[j], k);
                assert(0 <= j < n && holds(groups, probes(pattern)[j], k));
            }
            if holds(groups, here, k) {
                assert(0 <= n - 1 < n && holds(groups, probes(pattern)[n - 1], k));
            }
            if exists|j: int| 0 <= j < n && holds(groups, #[trigger] probes(pattern)[j], k) {
                let j = choose|j: int|
                    0 <= j < n && holds(groups, #[trigger] probes(pattern)[j], k);
                if j < n - 1 {
                    assert(0 <= j < prev && holds(groups, probes(pattern)[j], k));
                    assert(before.contains(k));
                }
            }
        }
    }
}

/// What is reached in the first `n` tables is what is near in one of them,
/// each item once.
pub proof fn lemma_reached<K>(tables: Seq<Seq<Group<K>>>, patterns: Seq<Seq<bool>>, n: nat)
    requires
        n <= tables.len(),
    ensures
        reached(tables, patterns, n).no_duplicates(),
        forall|k: K|
            reached(tables, patterns, n).contains(k) <==> exists|t: int|
                0 <= t < n && near(#[trigger] tables[t], patterns[t], k),
    decreases n,
{
    if n > 0 {
        let prev = (n - 1) as nat;
        let before = reached(tables, patterns, prev);
        let after = reached(tables, patterns, n);
        let groups = tables[n - 1];
        let pattern = patterns[n - 1];
        lemma_reached(tables, patterns, prev);
        lemma_probed(before, groups, pattern, pattern.len() + 1);
        assert forall|k: K|
            after.contains(k) <==> exists|t: int|
                0 <= t < n && near(#[trigger] tables[t], patterns[t], k) by {
            if before.contains(k) {
                let t = choose|t: int| 0 <= t < prev && near(#[trigger] tables[t], patterns[t], k);
                assert(0 <= t < n && near(tables[t], patterns[t], k));
            }
            if near(groups, pattern, k) {
                assert(0 <= n - 1 < n && near(tables[n - 1], patterns[n - 1], k));
            }
            if exists|t: int| 0 <= t < n && near(#[trigger] tables[t], patterns[t], k) {
                let t = choose|t: int| 0 <= t < n && near(#[trigger] tables[t], patterns[t], k);
                if t < n - 1 {
                    assert(0 <= t < prev && near(tables[t], patterns[t], k));
                    assert(before.contains(k));
                }
            }
        }
    }
}

/// What a query reaches holds each candidate once, and nothing else.
pub proof fn lemma_reach<K>(tables: Seq<Seq<Group<K>>>, patterns: Seq<Seq<bool>>)
    ensures
        reach(tables, patterns).no_duplicates(),
        forall|k: K| reach(tables, patterns).contains(k) <==> candidate(tables, patterns, k),
{
    lemma_reached(tables, patterns, tables.len());
}

} // verus!
