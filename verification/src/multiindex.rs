//! The ensemble: several tables over the same items, queried together.

use crate::autotune::after;
use crate::autotune::complete;
use crate::autotune::fresh;
use crate::autotune::lemma_after_prefix;
use crate::autotune::lemma_outcome_after;
use crate::autotune::measured;
use crate::autotune::settles;
use crate::autotune::PlaneSearch;
use crate::autotune::SearchStep;
use crate::autotune::LAST_PLANES;
use crate::hyperindex::holds;
use crate::hyperindex::insert;
use crate::hyperindex::lemma_added_is_held;
use crate::hyperindex::lemma_held_stays;
use crate::hyperindex::orderly;
use crate::hyperindex::Average;
use crate::hyperindex::Group;
use crate::hyperindex::HyperIndex;
use crate::pattern::all_bits;
use crate::pattern::bit_at;
use crate::pattern::bits;
use crate::pattern::copy_key;
use crate::pattern::key_len;
use crate::pattern::probes;
use crate::pattern::set_bit;
use crate::pattern::signs;
use crate::reach::candidate;
use crate::reach::lemma_pushed;
use crate::reach::lemma_reach;
use crate::reach::near;
use crate::reach::probed;
use crate::reach::reach;
use crate::reach::reached;
use crate::reach::taken_in;
use crate::ranking::ascending;
use crate::ranking::distinct;
use crate::ranking::lemma_nearest_of;
use crate::ranking::nearest_of;
use crate::ranking::top;
pub use crate::distance::DistanceNode;
use bit_vec::BitVec;
use std::collections::HashSet;
use std::hash::Hash;
use vstd::prelude::*;
use vstd::std_specs::hash::obeys_key_model;

verus! {

/// The pattern of a point in each table, from its projections on the
/// hyperplanes of each.
pub open spec fn all_signs(projections: Seq<Vec<u32>>) -> Seq<Seq<bool>> {
    Seq::new(projections.len(), |t: int| signs(projections[t]@))
}

/// Whether the nodes are what a query reaches, in the order in which it
/// comes upon it, each with a distance that the scoring function gave for
/// it.
pub open spec fn scoring<K, F: Fn(&K) -> u32>(
    tables: Seq<Seq<Group<K>>>,
    patterns: Seq<Seq<bool>>,
    get_dist: F,
    scored: Seq<DistanceNode<K>>,
) -> bool {
    &&& scored.len() == reach(tables, patterns).len()
    &&& forall|i: int|
        0 <= i < scored.len() ==> (#[trigger] scored[i]).key == reach(tables, patterns)[i]
    &&& forall|i: int|
        0 <= i < scored.len() ==> call_ensures(
            get_dist,
            (&(#[trigger] scored[i]).key,),
            scored[i].distance,
        )
}

/// An ensemble of tables. Every item is added to each table, under the key
/// that its vector has there; a query looks into each table, under the key
/// of the query point and under the keys next to it.
pub struct MultiIndex<K> {
    dims: usize,
    planes: u8,
    count: usize,
    indices: Vec<HyperIndex<K>>,
}

impl<K> View for MultiIndex<K> {
    type V = Seq<Seq<Group<K>>>;

    /// The buckets of each table.
    closed spec fn view(&self) -> Seq<Seq<Group<K>>> {
        Seq::new(self.indices.len() as nat, |t: int| self.indices[t]@)
    }
}

/// Takes in the items that were not seen before.
fn take_in<K: Copy + Eq + Hash>(items: &Vec<K>, seen: &mut HashSet<K>, found: &mut Vec<K>)
    requires
        obeys_key_model::<K>(),
        forall|k: K| old(found)@.contains(k) <==> old(seen)@.contains(k),
    ensures
        final(found)@ == taken_in(old(found)@, items@),
        forall|k: K| final(found)@.contains(k) <==> final(seen)@.contains(k),
{
    let mut i: usize = 0;
    while i < items.len()
        invariant
            obeys_key_model::<K>(),
            i <= items.len(),
            found@ == taken_in(old(found)@, items@.take(i as int)),
            forall|k: K| found@.contains(k) <==> seen@.contains(k),
        decreases items.len() - i,
    {
        let k = items[i];
        proof {
            lemma_pushed(found@, k);
            assert(items@.take(i + 1).drop_last() =~= items@.take(i as int));
        }
        if seen.insert(k) {
            found.push(k);
        }
        i += 1;
    }
    proof {
        assert(items@.take(i as int) =~= items@);
    }
}

impl<K: Copy + Eq + Hash> MultiIndex<K> {
    /// The dimension that the ensemble was made for.
    pub closed spec fn dims(&self) -> usize {
        self.dims
    }

    /// The number of hyperplanes of each table.
    pub closed spec fn planes(&self) -> nat {
        self.planes as nat
    }

    /// The number of tables.
    pub closed spec fn tables(&self) -> nat {
        self.indices.len() as nat
    }

    /// The number of items added so far.
    pub closed spec fn count(&self) -> nat {
        self.count as nat
    }

    /// The invariant of the ensemble: its tables are well formed, alike in
    /// dimension and number of hyperplanes, and hold the same number of
    /// items.
    pub closed spec fn wf(&self) -> bool {
        &&& self.indices.len() <= 255
        &&& forall|t: int|
            0 <= t < self.indices.len() ==> {
                &&& (#[trigger] self.indices[t]).wf()
                &&& self.indices[t].dims() == self.dims
                &&& self.indices[t].planes() == self.planes
                &&& self.indices[t].count() == self.count
            }
    }

    /// Whether the projections are those of one point for this ensemble: a
    /// list for each table, a number for each hyperplane.
    pub open spec fn fits(&self, projections: Seq<Vec<u32>>) -> bool {
        &&& projections.len() == self.tables()
        &&& forall|t: int|
            0 <= t < projections.len() ==> (#[trigger] projections[t]).len() == self.planes()
    }

    /// What the invariant says of the buckets: there are as many tables as
    /// `tables()` says, and each is orderly.
    pub proof fn lemma_tables(&self)
        requires
            self.wf(),
        ensures
            self@.len() == self.tables(),
            self.tables() <= 255,
            self.planes() <= 255,
            forall|t: int| 0 <= t < self@.len() ==> orderly(#[trigger] self@[t], self.planes()),
    {
        assert forall|t: int| 0 <= t < self@.len() implies orderly(
            #[trigger] self@[t],
            self.planes(),
        ) by {
            assert(self.indices[t].wf());
        }
    }

    /// Projections that fit the ensemble give patterns that match its
    /// tables.
    pub proof fn lemma_matched(&self, projections: Seq<Vec<u32>>)
        requires
            self.wf(),
            self.fits(projections),
        ensures
            matched(self@, self.planes(), all_signs(projections)),
    {
        self.lemma_tables();
    }

    /// An ensemble of `index_count` tables without items, for vectors of
    /// `dimension` components, each table with `hyperplane_count`
    /// hyperplanes.
    pub fn new(dimension: usize, index_count: u8, hyperplane_count: u8) -> (index: MultiIndex<K>)
        ensures
            index.wf(),
            index.dims() == dimension,
            index.tables() == index_count,
            index.planes() == hyperplane_count,
            index.count() == 0,
            index@ == Seq::new(index_count as nat, |t: int| Seq::<Group<K>>::empty()),
    {
        let mut indices: Vec<HyperIndex<K>> = Vec::new();
        let mut t: u8 = 0;
        while t < index_count
            invariant
                t <= index_count,
                indices.len() == t,
                forall|m: int|
                    0 <= m < t ==> {
                        &&& (#[trigger] indices[m]).wf()
                        &&& indices[m].dims() == dimension
                        &&& indices[m].planes() == hyperplane_count
                        &&& indices[m].count() == 0
                        &&& indices[m]@ == Seq::<Group<K>>::empty()
                    },
            decreases index_count - t,
        {
            indices.push(HyperIndex::new(dimension, hyperplane_count));
            t += 1;
        }
        let index = MultiIndex { dims: dimension, planes: hyperplane_count, count: 0, indices };
        assert(index@ =~= Seq::new(index_count as nat, |t: int| Seq::<Group<K>>::empty()));
        index
    }

    /// Finds the number of hyperplanes for a sample of `sample_count` vectors
    /// and a target of `group_size` items to the bucket, given as a binary32
    /// bit pattern. `measure` is asked for the average bucket size that the
    /// sample has with a given number of hyperplanes, for one number after
    /// the other from the first estimate on. The result is the first number
    /// whose average is not above the target; where no number up to the last
    /// brings the average down to it, the number whose average is the least.
    pub fn autotune_planes<F: Fn(u8) -> Average>(
        sample_count: usize,
        group_size: u32,
        measure: F,
    ) -> (planes: u8)
        requires
            forall|h: u8| h <= LAST_PLANES ==> call_requires(measure, (h,)),
        ensures
            exists|averages: Seq<Average>|
                settles(measure, fresh(sample_count as nat, group_size), averages, planes),
    {
        let start = PlaneSearch::start(sample_count, group_size);
        let mut search = start;
        let ghost mut averages: Seq<Average> = Seq::empty();
        loop
            invariant
                forall|h: u8| h <= LAST_PLANES ==> call_requires(measure, (h,)),
                start == fresh(sample_count as nat, group_size),
                start.planes <= 253,
                start.planes + averages.len() <= LAST_PLANES,
                measured(measure, start.planes, averages),
                forall|i: int| 0 <= i < averages.len() ==> (#[trigger] averages[i]).above(start.target),
                search == after(start, averages, averages.len() as int),
                search.planes == start.planes + averages.len(),
                search.target == start.target,
            decreases LAST_PLANES - search.planes,
        {
            let average = measure(search.planes);
            let ghost seen = averages;
            proof {
                averages = seen.push(average);
                assert(averages.skip(seen.len() as int) =~= seq![average]);
                assert(averages.skip(seen.len() as int).drop_first() =~= Seq::<Average>::empty());
                lemma_outcome_after(start, averages, seen.len() as int);
                lemma_after_prefix(start, seen, averages, seen.len() as int);
            }
            match search.observe(average) {
                SearchStep::Done(planes) => {
                    proof {
                        assert(search.ends(average));
                        assert(complete(start, averages));
                        assert(settles(measure, start, averages, planes));
                    }
                    return planes;
                },
                SearchStep::Measure(next) => {
                    proof {
                        assert(!search.ends(average));
                        lemma_after_prefix(start, averages, averages, averages.len() as int);
                    }
                    search = next;
                },
            }
        }
    }

    /// The dimension that the ensemble was made for.
    pub fn dimensions(&self) -> (n: usize)
        ensures
            n == self.dims(),
    {
        self.dims
    }

    /// The number of hyperplanes of each table.
    pub fn planes_len(&self) -> (n: usize)
        ensures
            n == self.planes(),
    {
        self.planes as usize
    }

    /// The number of tables.
    pub fn indices_len(&self) -> (n: usize)
        ensures
            n == self.tables(),
    {
        self.indices.len()
    }

    /// The number of items added so far.
    pub fn len(&self) -> (n: usize)
        ensures
            n == self.count(),
    {
        self.count
    }

    /// Adds the item to every table, under the key that its vector has
    /// there: `projections[t]` holds the vector's projections on the
    /// hyperplanes of table `t`.
    pub fn add(&mut self, key: K, projections: &Vec<Vec<u32>>)
        requires
            old(self).wf(),
            old(self).fits(projections@),
            old(self).count() < usize::MAX,
        ensures
            final(self).wf(),
            final(self).dims() == old(self).dims(),
            final(self).planes() == old(self).planes(),
            final(self).tables() == old(self).tables(),
            final(self).count() == old(self).count() + 1,
            final(self)@ == insert_each(old(self)@, all_signs(projections@), key),
    {
        let ghost before = self.indices@;
        let n = self.indices.len();
        let mut t: usize = 0;
        while t < n
            invariant
                t <= n,
                n == before.len(),
                n == projections.len(),
                before == old(self).indices@,
                old(self).wf(),
                old(self).fits(projections@),
                self.indices.len() == n,
                self.dims == old(self).dims,
                self.planes == old(self).planes,
                self.count == old(self).count,
                self.count < usize::MAX,
                forall|m: int| t <= m < n ==> #[trigger] self.indices[m] == before[m],
                forall|m: int|
                    0 <= m < t ==> {
                        &&& (#[trigger] self.indices[m]).wf()
                        &&& self.indices[m].dims() == self.dims
                        &&& self.indices[m].planes() == self.planes
                        &&& self.indices[m].count() == self.count + 1
                        &&& self.indices[m]@ == insert(before[m]@, signs(projections@[m]@), key)
                    },
            decreases n - t,
        {
            assert(before[t as int].wf());
            assert(projections@[t as int].len() == self.planes);
            let ghost now = self.indices@;
            self.indices[t].add(key, &projections[t]);
            proof {
                assert forall|m: int| t < m < n implies #[trigger] self.indices[m] == before[m] by {
                    assert(now[m] == before[m]);
                }
                assert forall|m: int| 0 <= m < t implies (#[trigger] self.indices[m]) == now[m] by {}
            }
            t += 1;
        }
        self.count += 1;
        assert(self@ =~= insert_each(old(self)@, all_signs(projections@), key));
    }

    /// The keys to probe for a query that hashed to `key`: `key` itself, and
    /// each key at Hamming distance one from it. A key without bits has no
    /// neighbours.
    pub fn vary_key(key: &BitVec) -> (keys: Vec<BitVec>)
        ensures
            all_bits(keys@) == probes(bits(key)),
    {
        let n = key_len(key);
        let mut keys: Vec<BitVec> = Vec::new();
        keys.push(copy_key(key));
        let mut i: usize = 0;
        while i < n
            invariant
                n == bits(key).len(),
                i <= n,
                keys.len() == i + 1,
                forall|j: int| 0 <= j <= i ==> bits(&#[trigger] keys@[j]) == probes(bits(key))[j],
            decreases n - i,
        {
            let mut k = copy_key(key);
            let b = bit_at(&k, i);
            set_bit(&mut k, i, !b);
            keys.push(k);
            i += 1;
        }
        assert(all_bits(keys@) =~= probes(bits(key)));
        keys
    }

    /// Takes in what a query reaches in one table.
    fn probe(table: &HyperIndex<K>, key: &BitVec, seen: &mut HashSet<K>, found: &mut Vec<K>)
        requires
            obeys_key_model::<K>(),
            table.wf(),
            forall|k: K| old(found)@.contains(k) <==> old(seen)@.contains(k),
        ensures
            final(found)@ == probed(old(found)@, table@, bits(key), bits(key).len() + 1),
            forall|k: K| final(found)@.contains(k) <==> final(seen)@.contains(k),
    {
        let keys = Self::vary_key(key);
        let ghost pattern = bits(key);
        let mut j: usize = 0;
        assert(keys.len() == pattern.len() + 1) by {
            assert(all_bits(keys@).len() == probes(pattern).len());
        }
        while j < keys.len()
            invariant
                obeys_key_model::<K>(),
                table.wf(),
                pattern == bits(key),
                all_bits(keys@) == probes(pattern),
                keys.len() == pattern.len() + 1,
                j <= keys.len(),
                found@ == probed(old(found)@, table@, pattern, j as nat),
                forall|k: K| found@.contains(k) <==> seen@.contains(k),
            decreases keys.len() - j,
        {
            assert(bits(&keys@[j as int]) == probes(pattern)[j as int]) by {
                assert(all_bits(keys@)[j as int] == bits(&keys@[j as int]));
            }
            match table.group(&keys[j]) {
                Some(items) => {
                    take_in(items, seen, found);
                },
                None => {},
            }
            j += 1;
        }
    }

    /// What a query reaches, as a list and as a set.
    fn gather(&self, projections: &Vec<Vec<u32>>) -> (r: (Vec<K>, HashSet<K>))
        requires
            obeys_key_model::<K>(),
            self.wf(),
            self.fits(projections@),
        ensures
            r.0@ == reach(self@, all_signs(projections@)),
            forall|k: K| r.0@.contains(k) <==> r.1@.contains(k),
    {
        let mut found: Vec<K> = Vec::new();
        let mut seen: HashSet<K> = HashSet::new();
        let ghost patterns = all_signs(projections@);
        let mut t: usize = 0;
        while t < self.indices.len()
            invariant
                obeys_key_model::<K>(),
                self.wf(),
                self.fits(projections@),
                patterns == all_signs(projections@),
                t <= self.indices.len(),
                self@.len() == self.indices.len(),
                found@ == reached(self@, patterns, t as nat),
                forall|k: K| found@.contains(k) <==> seen@.contains(k),
            decreases self.indices.len() - t,
        {
            assert(self.indices[t as int].wf());
            assert(projections@[t as int].len() == self.planes());
            assert(self@[t as int] == self.indices[t as int]@);
            let key = self.indices[t].key(&projections[t]);
            assert(bits(&key) == patterns[t as int]);
            Self::probe(&self.indices[t], &key, &mut seen, &mut found);
            t += 1;
        }
        (found, seen)
    }

    /// The keys of the items that a query reaches, each once, unscored:
    /// those that lie, in some table, under the key of the query point or
    /// under a key one bit away from it. They come in the order in which the
    /// query comes upon them.
    pub fn nearest_points(&self, projections: &Vec<Vec<u32>>) -> (keys: Vec<K>)
        requires
            obeys_key_model::<K>(),
            self.wf(),
            self.fits(projections@),
        ensures
            keys@ == reach(self@, all_signs(projections@)),
            keys@.no_duplicates(),
            forall|k: K| keys@.contains(k) <==> candidate(self@, all_signs(projections@), k),
    {
        proof {
            lemma_reach(self@, all_signs(projections@));
        }
        self.gather(projections).0
    }

    /// The keys of the items that a query reaches, as a set.
    pub fn nearest_points_set(&self, projections: &Vec<Vec<u32>>) -> (keys: HashSet<K>)
        requires
            obeys_key_model::<K>(),
            self.wf(),
            self.fits(projections@),
        ensures
            keys@ == Set::new(|k: K| candidate(self@, all_signs(projections@), k)),
            keys@ == reach(self@, all_signs(projections@)).to_set(),
    {
        proof {
            lemma_reach(self@, all_signs(projections@));
        }
        let keys = self.gather(projections).1;
        assert(keys@ =~= Set::new(|k: K| candidate(self@, all_signs(projections@), k)));
        assert(keys@ =~= reach(self@, all_signs(projections@)).to_set());
        keys
    }

    /// The `count` nearest of the items that a query reaches, nearest first.
    /// Each candidate is scored once, by `get_dist`, which gives the
    /// distance of an item from the query point as a binary32 bit pattern.
    /// Candidates at one distance stay in the order in which the query came
    /// upon them.
    pub fn nearest<F: Fn(&K) -> u32>(
        &self,
        projections: &Vec<Vec<u32>>,
        count: usize,
        get_dist: F,
    ) -> (found: Vec<DistanceNode<K>>)
        requires
            obeys_key_model::<K>(),
            self.wf(),
            self.fits(projections@),
            forall|k: K|
                candidate(self@, all_signs(projections@), k) ==> call_requires(get_dist, (&k,)),
        ensures
            exists|scored: Seq<DistanceNode<K>>|
                scoring(self@, all_signs(projections@), get_dist, scored) && found@ == nearest_of(
                    scored,
                    count as nat,
                ),
            found.len() <= count,
            ascending(found@),
            distinct(found@),
            forall|i: int|
                0 <= i < found.len() ==> candidate(
                    self@,
                    all_signs(projections@),
                    (#[trigger] found[i]).key,
                ),
            forall|i: int|
                0 <= i < found.len() ==> call_ensures(
                    get_dist,
                    (&(#[trigger] found[i]).key,),
                    found[i].distance,
                ),
    {
        let keys = self.nearest_points(projections);
        let ghost patterns = all_signs(projections@);
        let mut scored: Vec<DistanceNode<K>> = Vec::new();
        let mut i: usize = 0;
        while i < keys.len()
            invariant
                i <= keys.len(),
                scored.len() == i,
                forall|k: K| keys@.contains(k) ==> call_requires(get_dist, (&k,)),
                forall|m: int| 0 <= m < i ==> (#[trigger] scored[m]).key == keys[m],
                forall|m: int|
                    0 <= m < i ==> call_ensures(
                        get_dist,
                        (&(#[trigger] scored[m]).key,),
                        scored[m].distance,
                    ),
            decreases keys.len() - i,
        {
            let key = keys[i];
            assert(keys@.contains(key));
            let distance = get_dist(&key);
            scored.push(DistanceNode { key, distance });
            i += 1;
        }
        let found = top(&scored, count);
        proof {
            assert(scoring(self@, patterns, get_dist, scored@));
            lemma_scoring(self@, patterns, get_dist, scored@);
            lemma_nearest_of(scored@, count as nat);
            lemma_nearest_are_candidates(self@, patterns, get_dist, scored@, count as nat);
            assert forall|i: int| 0 <= i < found.len() implies call_ensures(
                get_dist,
                (&(#[trigger] found[i]).key,),
                found[i].distance,
            ) by {
                assert(found@.contains(found[i]));
                assert(scored@.contains(found[i]));
                let m = choose|m: int| 0 <= m < scored.len() && scored[m] == found[i];
                assert(scored[m].key == found[i].key);
            }
        }
        found
    }
}

/// The tables after an item was added to each, under the pattern that it
/// has there.
pub open spec fn insert_each<K>(
    tables: Seq<Seq<Group<K>>>,
    patterns: Seq<Seq<bool>>,
    item: K,
) -> Seq<Seq<Group<K>>> {
    Seq::new(tables.len(), |t: int| insert(tables[t], patterns[t], item))
}

/// Whether the tables are orderly and the patterns fit them: one pattern
/// for each table, one bit for each hyperplane.
pub open spec fn matched<K>(
    tables: Seq<Seq<Group<K>>>,
    planes: nat,
    patterns: Seq<Seq<bool>>,
) -> bool {
    &&& patterns.len() == tables.len()
    &&& forall|t: int| 0 <= t < tables.len() ==> orderly(#[trigger] tables[t], planes)
    &&& forall|t: int| 0 <= t < tables.len() ==> (#[trigger] patterns[t]).len() == planes
}

/// An item that was added is reached by every query that has, in some
/// table, the pattern under which the item was added there: so by a query
/// for the item's own vector, if there is a table at all.
pub proof fn lemma_added_is_candidate<K>(
    tables: Seq<Seq<Group<K>>>,
    planes: nat,
    patterns: Seq<Seq<bool>>,
    item: K,
    query: Seq<Seq<bool>>,
    t: int,
)
    requires
        matched(tables, planes, patterns),
        0 <= t < tables.len(),
        query[t] == patterns[t],
    ensures
        candidate(insert_each(tables, patterns, item), query, item),
{
    let after = insert_each(tables, patterns, item);
    lemma_added_is_held(tables[t], planes, patterns[t], item);
    assert(probes(query[t])[0] == patterns[t]);
    assert(near(after[t], query[t], item));
}

/// Nothing is ever lost to a query: what it reached before an addition it
/// reaches after it.
pub proof fn lemma_candidate_stays<K>(
    tables: Seq<Seq<Group<K>>>,
    planes: nat,
    patterns: Seq<Seq<bool>>,
    item: K,
    query: Seq<Seq<bool>>,
    earlier: K,
)
    requires
        matched(tables, planes, patterns),
        candidate(tables, query, earlier),
    ensures
        candidate(insert_each(tables, patterns, item), query, earlier),
{
    let after = insert_each(tables, patterns, item);
    let t = choose|t: int| 0 <= t < tables.len() && near(#[trigger] tables[t], query[t], earlier);
    let j = choose|j: int|
        0 <= j <= query[t].len() && holds(tables[t], #[trigger] probes(query[t])[j], earlier);
    lemma_held_stays(tables[t], planes, patterns[t], item, probes(query[t])[j], earlier);
    assert(near(after[t], query[t], earlier));
}

/// The scored candidates of a query are its candidates, each once.
pub proof fn lemma_scoring<K, F: Fn(&K) -> u32>(
    tables: Seq<Seq<Group<K>>>,
    patterns: Seq<Seq<bool>>,
    get_dist: F,
    scored: Seq<DistanceNode<K>>,
)
    requires
        scoring(tables, patterns, get_dist, scored),
    ensures
        distinct(scored),
        forall|k: K|
            candidate(tables, patterns, k) <==> exists|i: int|
                0 <= i < scored.len() && (#[trigger] scored[i]).key == k,
{
    let keys = reach(tables, patterns);
    lemma_reach(tables, patterns);
    assert forall|a: int, b: int| 0 <= a < b < scored.len() implies (#[trigger] scored[a]).key != (
    #[trigger] scored[b]).key by {
        assert(scored[a].key == keys[a] && scored[b].key == keys[b]);
    }
    assert forall|k: K|
        candidate(tables, patterns, k) <==> exists|i: int|
            0 <= i < scored.len() && (#[trigger] scored[i]).key == k by {
        if candidate(tables, patterns, k) {
            assert(keys.contains(k));
            let m = choose|m: int| 0 <= m < keys.len() && keys[m] == k;
            assert(scored[m].key == k);
        }
        if exists|i: int| 0 <= i < scored.len() && (#[trigger] scored[i]).key == k {
            let m = choose|m: int| 0 <= m < scored.len() && (#[trigger] scored[m]).key == k;
            assert(keys[m] == k);
            assert(keys.contains(k));
        }
    }
}

/// Every key among the nearest of a query is a key that the query reaches:
/// ranking the scored candidates brings in nothing from elsewhere.
pub proof fn lemma_nearest_are_candidates<K, F: Fn(&K) -> u32>(
    tables: Seq<Seq<Group<K>>>,
    patterns: Seq<Seq<bool>>,
    get_dist: F,
    scored: Seq<DistanceNode<K>>,
    count: nat,
)
    requires
        scoring(tables, patterns, get_dist, scored),
    ensures
        forall|i: int|
            0 <= i < nearest_of(scored, count).len() ==> candidate(
                tables,
                patterns,
                (#[trigger] nearest_of(scored, count)[i]).key,
            ),
{
    let best = nearest_of(scored, count);
    lemma_nearest_of(scored, count);
    lemma_scoring(tables, patterns, get_dist, scored);
    assert forall|i: int| 0 <= i < best.len() implies candidate(
        tables,
        patterns,
        (#[trigger] best[i]).key,
    ) by {
        assert(best.contains(best[i]));
        assert(scored.contains(best[i]));
        let m = choose|m: int| 0 <= m < scored.len() && scored[m] == best[i];
        assert(scored[m].key == best[i].key);
    }
}

} // verus!
