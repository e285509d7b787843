//! One hash table of the index: buckets of item keys under sign patterns.

use crate::binary32::is_nan;
use crate::binary32::is_positive;
use crate::binary32::is_under_fraction;
use crate::binary32::nan;
use crate::binary32::scaled;
use crate::binary32::under_fraction;
use crate::pattern::bit_at;
use crate::pattern::bits;
use crate::pattern::empty_key;
use crate::pattern::key_len;
use crate::pattern::push_bit;
use crate::pattern::same_key;
use crate::pattern::signs;
use bit_vec::BitVec;
use std::collections::HashMap;
use vstd::arithmetic::power2::lemma_pow2_pos;
use vstd::arithmetic::power2::pow2;
use vstd::prelude::*;

verus! {

/// A bucket as contracts see it: the sign pattern that its items share, and
/// the items in the order in which they were added.
pub struct Group<K> {
    pub pattern: Seq<bool>,
    pub items: Seq<K>,
}

/// Whether some bucket stands under the pattern.
pub open spec fn present<K>(groups: Seq<Group<K>>, pattern: Seq<bool>) -> bool {
    exists|i: int| 0 <= i < groups.len() && (#[trigger] groups[i]).pattern == pattern
}

/// The place of the bucket under the pattern, where there is one.
pub open spec fn position<K>(groups: Seq<Group<K>>, pattern: Seq<bool>) -> int {
    choose|i: int| 0 <= i < groups.len() && (#[trigger] groups[i]).pattern == pattern
}

/// The items under the pattern, or nothing where no item ever had it.
pub open spec fn lookup<K>(groups: Seq<Group<K>>, pattern: Seq<bool>) -> Option<Seq<K>> {
    if present(groups, pattern) {
        Some(groups[position(groups, pattern)].items)
    } else {
        None
    }
}

/// Whether the item lies in the bucket under the pattern.
pub open spec fn holds<K>(groups: Seq<Group<K>>, pattern: Seq<bool>, item: K) -> bool {
    present(groups, pattern) && groups[position(groups, pattern)].items.contains(item)
}

/// The buckets after one more item: it goes behind the items of the bucket
/// under its pattern, or into a new last bucket where there was none.
pub open spec fn insert<K>(groups: Seq<Group<K>>, pattern: Seq<bool>, item: K) -> Seq<Group<K>> {
    if present(groups, pattern) {
        let i = position(groups, pattern);
        groups.update(i, Group { pattern: pattern, items: groups[i].items.push(item) })
    } else {
        groups.push(Group { pattern: pattern, items: seq![item] })
    }
}

/// The buckets after a run of items, each given with its pattern.
pub open spec fn insert_all<K>(groups: Seq<Group<K>>, entries: Seq<(Seq<bool>, K)>) -> Seq<
    Group<K>,
>
    decreases entries.len(),
{
    if entries.len() == 0 {
        groups
    } else {
        insert(insert_all(groups, entries.drop_last()), entries.last().0, entries.last().1)
    }
}

/// The number of items in all buckets together.
pub open spec fn total<K>(groups: Seq<Group<K>>) -> nat
    decreases groups.len(),
{
    if groups.len() == 0 {
        0
    } else {
        total(groups.drop_last()) + groups.last().items.len()
    }
}

/// What holds of the buckets of every index with `planes` hyperplanes: no
/// two stand under one pattern, each pattern has one bit per hyperplane, and
/// no bucket is empty.
pub open spec fn orderly<K>(groups: Seq<Group<K>>, planes: nat) -> bool {
    &&& forall|i: int, j: int|
        0 <= i < j < groups.len() ==> (#[trigger] groups[i]).pattern != (#[trigger] groups[j]).pattern
    &&& forall|i: int| 0 <= i < groups.len() ==> (#[trigger] groups[i]).pattern.len() == planes
    &&& forall|i: int| 0 <= i < groups.len() ==> (#[trigger] groups[i]).items.len() > 0
}

/// The least bucket size, 0 where there is no bucket.
pub open spec fn least<K>(groups: Seq<Group<K>>, n: nat) -> bool {
    if groups.len() == 0 {
        n == 0
    } else {
        &&& exists|i: int| 0 <= i < groups.len() && (#[trigger] groups[i]).items.len() == n
        &&& forall|i: int| 0 <= i < groups.len() ==> n <= (#[trigger] groups[i]).items.len()
    }
}

/// The greatest bucket size, 0 where there is no bucket.
pub open spec fn greatest<K>(groups: Seq<Group<K>>, n: nat) -> bool {
    if groups.len() == 0 {
        n == 0
    } else {
        &&& exists|i: int| 0 <= i < groups.len() && (#[trigger] groups[i]).items.len() == n
        &&& forall|i: int| 0 <= i < groups.len() ==> n >= (#[trigger] groups[i]).items.len()
    }
}

/// An average bucket size, kept exact as a fraction: `total` items in
/// `count` buckets. Without items and buckets there is no average; such a
/// value is above no target.
#[derive(Clone, Copy, Debug, PartialEq, Eq)]
pub struct Average {
    pub total: usize,
    pub count: usize,
}

impl Average {
    /// Whether the average is greater than the target, a bucket size given
    /// as a binary32 bit pattern. No average is above a NaN, and an average
    /// of no items is above nothing.
    pub open spec fn above(self, target: u32) -> bool {
        &&& !nan(target)
        &&& self.total > 0
        &&& under_fraction(target, self.total as nat, self.count as nat)
    }

    /// Whether the average is less than the other.
    pub open spec fn below(self, other: Average) -> bool {
        self.total * other.count < other.total * self.count
    }

    /// Whether the average is greater than the target.
    pub fn is_above(&self, target: u32) -> (r: bool)
        ensures
            r == self.above(target),
    {
        !is_nan(target) && self.total > 0 && is_under_fraction(target, self.total, self.count)
    }

    /// Whether the average is less than the other.
    pub fn is_below(&self, other: &Average) -> (r: bool)
        ensures
            r == self.below(*other),
    {
        proof {
            lemma_product_fits(self.total, other.count);
            lemma_product_fits(other.total, self.count);
        }
        (self.total as u128) * (other.count as u128) < (other.total as u128) * (self.count as u128)
    }
}

/// Against a target that is a whole number of items, an average is above
/// the target exactly when there are more items than so many to each
/// bucket.
pub proof fn lemma_above_whole(average: Average, target: u32, n: nat)
    requires
        !nan(target),
        scaled(target) == n * pow2(149),
    ensures
        average.above(target) <==> average.total > n * average.count,
{
    let a = pow2(149) as int;
    let t = average.total as int;
    let c = average.count as int;
    lemma_pow2_pos(149);
    assert(t * a > (n * a) * c <==> t > n * c) by (nonlinear_arith)
        requires
            a > 0,
    ;
    assert(n * c >= 0) by (nonlinear_arith)
        requires
            n >= 0,
            c >= 0,
    ;
}

proof fn lemma_product_fits(a: usize, b: usize)
    ensures
        a * b <= u128::MAX,
{
    assert(a * b <= 0xFFFF_FFFF_FFFF_FFFF * 0xFFFF_FFFF_FFFF_FFFF) by (nonlinear_arith)
        requires
            0 <= a <= 0xFFFF_FFFF_FFFF_FFFF,
            0 <= b <= 0xFFFF_FFFF_FFFF_FFFF,
    ;
}

struct Bucket<K> {
    pattern: BitVec,
    items: Vec<K>,
}

/// A single-table index. It keeps the item keys that were added, each in the
/// bucket of the sign pattern that its vector had against the hyperplanes of
/// the table. It only grows.
pub struct HyperIndex<K> {
    dims: usize,
    planes: u8,
    count: usize,
    buckets: Vec<Bucket<K>>,
    slots: HashMap<u64, Vec<usize>>,
}

/// Half the range of a digest: the top bit's weight.
const HALF: u64 = 0x8000_0000_0000_0000;

/// The number under which a pattern is filed: its last 64 bits, read as a
/// binary number. Patterns of one digest share a chain.
closed spec fn digest(pattern: Seq<bool>) -> u64
    decreases pattern.len(),
{
    if pattern.len() == 0 {
        0
    } else {
        ((digest(pattern.drop_last()) % HALF) * 2 + if pattern.last() {
            1int
        } else {
            0int
        }) as u64
    }
}

fn digest_of(key: &BitVec) -> (h: u64)
    ensures
        h == digest(bits(key)),
{
    let n = key_len(key);
    let mut h: u64 = 0;
    let mut i: usize = 0;
    while i < n
        invariant
            n == bits(key).len(),
            i <= n,
            h == digest(bits(key).take(i as int)),
        decreases n - i,
    {
        let low: u64 = if bit_at(key, i) {
            1
        } else {
            0
        };
        proof {
            assert(bits(key).take(i + 1).drop_last() =~= bits(key).take(i as int));
        }
        h = (h % HALF) * 2 + low;
        i += 1;
    }
    proof {
        assert(bits(key).take(i as int) =~= bits(key));
    }
    h
}

impl<K> View for HyperIndex<K> {
    type V = Seq<Group<K>>;

    /// The buckets, in the order in which they came to be.
    closed spec fn view(&self) -> Seq<Group<K>> {
        Seq::new(
            self.buckets.len() as nat,
            |i: int| Group { pattern: bits(&self.buckets[i].pattern), items: self.buckets[i].items@ },
        )
    }
}

impl<K> HyperIndex<K> {
    /// The dimension that the index was made for.
    pub closed spec fn dims(&self) -> usize {
        self.dims
    }

    /// The number of hyperplanes, which is the number of bits in a key.
    pub closed spec fn planes(&self) -> nat {
        self.planes as nat
    }

    /// The number of items added so far.
    pub closed spec fn count(&self) -> nat {
        self.count as nat
    }

    /// Every bucket is filed under the digest of its pattern, and the chains
    /// hold nothing else.
    pub closed spec fn filed(&self) -> bool {
        &&& forall|i: int|
            0 <= i < self.buckets.len() ==> {
                let h = digest(bits(&(#[trigger] self.buckets[i]).pattern));
                self.slots@.contains_key(h) && self.slots@[h]@.contains(i as usize)
            }
        &&& forall|h: u64, j: int|
            self.slots@.contains_key(h) && 0 <= j < self.slots@[h]@.len() ==> {
                let i = #[trigger] self.slots@[h]@[j];
                i < self.buckets.len() && digest(bits(&self.buckets[i as int].pattern)) == h
            }
    }

    /// The invariant of the index.
    pub open spec fn wf(&self) -> bool {
        &&& orderly(self@, self.planes())
        &&& self.count() == total(self@)
        &&& self.planes() <= 255
        &&& self.filed()
    }

    /// An index without items for vectors of `dimension` components, with
    /// `hyperplane_count` hyperplanes.
    pub fn new(dimension: usize, hyperplane_count: u8) -> (index: HyperIndex<K>)
        ensures
            index.wf(),
            index@ == Seq::<Group<K>>::empty(),
            index.dims() == dimension,
            index.planes() == hyperplane_count,
            index.count() == 0,
    {
        let index = HyperIndex {
            dims: dimension,
            planes: hyperplane_count,
            count: 0,
            buckets: Vec::new(),
            slots: HashMap::new(),
        };
        assert(index@ =~= Seq::<Group<K>>::empty());
        index
    }

    /// The dimension that the index was made for.
    pub fn dimensions(&self) -> (n: usize)
        ensures
            n == self.dims(),
    {
        self.dims
    }

    /// The number of buckets.
    pub fn groups_len(&self) -> (n: usize)
        ensures
            n == self@.len(),
    {
        self.buckets.len()
    }

    /// The number of hyperplanes.
    pub fn planes_len(&self) -> (n: usize)
        ensures
            n == self.planes(),
    {
        self.planes as usize
    }

    /// The number of items added so far.
    pub fn len(&self) -> (n: usize)
        ensures
            n == self.count(),
    {
        self.count
    }

    /// The bucket key of a vector, from its projections on the hyperplanes
    /// of this index, in their order: bit `i` says whether projection `i` is
    /// greater than zero.
    pub fn key(&self, projections: &Vec<u32>) -> (key: BitVec)
        requires
            projections.len() == self.planes(),
        ensures
            bits(&key) == signs(projections@),
    {
        let mut key = empty_key(projections.len());
        let mut i: usize = 0;
        while i < projections.len()
            invariant
                i <= projections.len(),
                bits(&key) == signs(projections@.take(i as int)),
            decreases projections.len() - i,
        {
            push_bit(&mut key, is_positive(projections[i]));
            i += 1;
            assert(bits(&key) =~= signs(projections@.take(i as int)));
        }
        assert(projections@.take(i as int) =~= projections@);
        key
    }

    /// The place of the bucket under `key`, if there is one.
    fn find(&self, key: &BitVec) -> (found: Option<usize>)
        requires
            self.wf(),
        ensures
            match found {
                Some(i) => i < self@.len() && self@[i as int].pattern == bits(key),
                None => !present(self@, bits(key)),
            },
    {
        let h = digest_of(key);
        match self.slots.get(&h) {
            None => {
                assert forall|i: int| 0 <= i < self@.len() implies (#[trigger] self@[i]).pattern
                    != bits(key) by {
                    let _ = self.buckets[i];
                }
                None
            },
            Some(chain) => {
                let mut j: usize = 0;
                while j < chain.len()
                    invariant
                        self.wf(),
                        h == digest(bits(key)),
                        self.slots@.contains_key(h),
                        *chain == self.slots@[h],
                        j <= chain.len(),
                        forall|m: int|
                            0 <= m < j ==> bits(&self.buckets[(#[trigger] chain@[m]) as int].pattern)
                                != bits(key),
                    decreases chain.len() - j,
                {
                    let i = chain[j];
                    if same_key(&self.buckets[i].pattern, key) {
                        return Some(i);
                    }
                    j += 1;
                }
                assert forall|i: int| 0 <= i < self@.len() implies (#[trigger] self@[i]).pattern
                    != bits(key) by {
                    let _ = self.buckets[i];
                    if self@[i].pattern == bits(key) {
                        assert(chain@.contains(i as usize));
                        let m = choose|m: int| 0 <= m < chain@.len() && chain@[m] == i as usize;
                        assert(bits(&self.buckets[chain@[m] as int].pattern) != bits(key));
                    }
                }
                None
            },
        }
    }

    /// The items that share the key, in the order in which they were added;
    /// nothing where no item ever had exactly this key.
    pub fn group(&self, key: &BitVec) -> (items: Option<&Vec<K>>)
        requires
            self.wf(),
        ensures
            match items {
                Some(found) => lookup(self@, bits(key)) == Some(found@),
                None => lookup(self@, bits(key)) is None,
            },
    {
        match self.find(key) {
            Some(i) => {
                proof {
                    lemma_position(self@, bits(key), i as int);
                }
                Some(&self.buckets[i].items)
            },
            None => None,
        }
    }

    /// Adds the item under the key of its vector, given by the vector's
    /// projections on the hyperplanes of this index.
    pub fn add(&mut self, key: K, projections: &Vec<u32>)
        requires
            old(self).wf(),
            projections.len() == old(self).planes(),
            old(self).count() < usize::MAX,
        ensures
            final(self).wf(),
            final(self)@ == insert(old(self)@, signs(projections@), key),
            lookup(final(self)@, signs(projections@)) == Some(
                match lookup(old(self)@, signs(projections@)) {
                    Some(items) => items.push(key),
                    None => seq![key],
                },
            ),
            forall|other: Seq<bool>|
                other != signs(projections@) ==> lookup(final(self)@, other) == lookup(
                    old(self)@,
                    other,
                ),
            final(self).dims() == old(self).dims(),
            final(self).planes() == old(self).planes(),
            final(self).count() == old(self).count() + 1,
    {
        let pattern = self.key(projections);
        let ghost before = self@;
        let ghost p = bits(&pattern);
        proof {
            lemma_insert_lookup(before, self.planes(), p, key);
        }
        match self.find(&pattern) {
            Some(i) => {
                proof {
                    lemma_position(before, p, i as int);
                    lemma_total_update(
                        before,
                        i as int,
                        Group { pattern: p, items: before[i as int].items.push(key) },
                    );
                }
                self.buckets[i].items.push(key);
                self.count += 1;
                assert(self@ =~= insert(before, p, key));
                assert(self.filed()) by {
                    assert forall|m: int| 0 <= m < self.buckets.len() implies bits(
                        &(#[trigger] self.buckets[m]).pattern,
                    ) == bits(&old(self).buckets[m].pattern) by {}
                    assert forall|m: int| 0 <= m < self.buckets.len() implies {
                        let h = digest(bits(&(#[trigger] self.buckets[m]).pattern));
                        self.slots@.contains_key(h) && self.slots@[h]@.contains(m as usize)
                    } by {
                        let _ = old(self).buckets[m];
                    }
                }
            },
            None => {
                let h = digest_of(&pattern);
                let i = self.buckets.len();
                let mut items: Vec<K> = Vec::new();
                items.push(key);
                self.buckets.push(Bucket { pattern, items });
                let mut chain = match self.slots.remove(&h) {
                    Some(c) => c,
                    None => Vec::new(),
                };
                let ghost formerly = chain@;
                chain.push(i);
                self.slots.insert(h, chain);
                self.count += 1;
                assert(self@ =~= insert(before, p, key));
                assert(before =~= self@.drop_last());
                assert(self.filed()) by {
                    assert(chain@.last() == i);
                    assert forall|m: int| 0 <= m < self.buckets.len() implies {
                        let d = digest(bits(&(#[trigger] self.buckets[m]).pattern));
                        self.slots@.contains_key(d) && self.slots@[d]@.contains(m as usize)
                    } by {
                        let d = digest(bits(&self.buckets[m].pattern));
                        if m < i {
                            let _ = old(self).buckets[m];
                            assert(self.buckets[m] == old(self).buckets[m]);
                            if d == h {
                                let w = choose|w: int|
                                    0 <= w < formerly.len() && formerly[w] == m as usize;
                                assert(chain@[w] == m as usize);
                            }
                        } else {
                            assert(chain@[chain@.len() - 1] == m as usize);
                        }
                    }
                    assert forall|d: u64, j: int|
                        self.slots@.contains_key(d) && 0 <= j < self.slots@[d]@.len() implies {
                        let m = #[trigger] self.slots@[d]@[j];
                        m < self.buckets.len() && digest(bits(&self.buckets[m as int].pattern))
                            == d
                    } by {
                        if d == h {
                            if j < formerly.len() {
                                assert(chain@[j] == formerly[j]);
                                let _ = old(self).slots@[h]@[j];
                            }
                        } else {
                            let _ = old(self).slots@[d]@[j];
                        }
                    }
                }
            },
        }
    }

    /// The least bucket size, the average bucket size and the greatest
    /// bucket size; zeros where nothing was added.
    pub fn stats(&self) -> (r: (usize, Average, usize))
        requires
            self.wf(),
        ensures
            least(self@, r.0 as nat),
            r.1.total == total(self@),
            r.1.count == self@.len(),
            greatest(self@, r.2 as nat),
    {
        let average = Average { total: self.count, count: self.buckets.len() };
        if self.buckets.len() == 0 {
            return (0, average, 0);
        }
        let mut min: usize = self.buckets[0].items.len();
        let mut max: usize = min;
        let mut i: usize = 1;
        assert(self@[0].items.len() == min);
        while i < self.buckets.len()
            invariant
                1 <= i <= self.buckets.len(),
                self@.len() == self.buckets.len(),
                exists|m: int| 0 <= m < i && (#[trigger] self@[m]).items.len() == min,
                exists|m: int| 0 <= m < i && (#[trigger] self@[m]).items.len() == max,
                forall|m: int| 0 <= m < i ==> min <= (#[trigger] self@[m]).items.len() <= max,
            decreases self.buckets.len() - i,
        {
            let size = self.buckets[i].items.len();
            assert(self@[i as int].items.len() == size);
            if size < min {
                min = size;
            }
            if size > max {
                max = size;
            }
            i += 1;
        }
        (min, average, max)
    }
}

/// Under orderly buckets, a bucket with the pattern is the bucket under the
/// pattern.
pub proof fn lemma_position<K>(groups: Seq<Group<K>>, pattern: Seq<bool>, i: int)
    requires
        forall|a: int, b: int|
            0 <= a < b < groups.len() ==> (#[trigger] groups[a]).pattern != (
            #[trigger] groups[b]).pattern,
        0 <= i < groups.len(),
        groups[i].pattern == pattern,
    ensures
        present(groups, pattern),
        position(groups, pattern) == i,
{
    let j = position(groups, pattern);
    if j < i {
        assert(groups[j].pattern != groups[i].pattern);
    } else if i < j {
        assert(groups[i].pattern != groups[j].pattern);
    }
}

/// Replacing one bucket changes the number of items by the difference of
/// the two sizes.
pub proof fn lemma_total_update<K>(groups: Seq<Group<K>>, i: int, group: Group<K>)
    requires
        0 <= i < groups.len(),
    ensures
        total(groups.update(i, group)) == total(groups) - groups[i].items.len() + group.items.len(),
    decreases groups.len(),
{
    let after = groups.update(i, group);
    if i == groups.len() - 1 {
        assert(after.drop_last() =~= groups.drop_last());
    } else {
        assert(after.drop_last() =~= groups.drop_last().update(i, group));
        lemma_total_update(groups.drop_last(), i, group);
    }
}

/// One more item is one more in the sum of the bucket sizes.
pub proof fn lemma_total_insert<K>(groups: Seq<Group<K>>, pattern: Seq<bool>, item: K)
    ensures
        total(insert(groups, pattern, item)) == total(groups) + 1,
{
    if present(groups, pattern) {
        let i = position(groups, pattern);
        lemma_total_update(
            groups,
            i,
            Group { pattern: pattern, items: groups[i].items.push(item) },
        );
    } else {
        let group = Group { pattern: pattern, items: seq![item] };
        assert(groups.push(group).drop_last() =~= groups);
    }
}

/// After `n` items were added to an index that had none, whatever their
/// patterns, the bucket sizes sum to `n`.
pub proof fn lemma_total_counts_items<K>(entries: Seq<(Seq<bool>, K)>)
    ensures
        total(insert_all(Seq::<Group<K>>::empty(), entries)) == entries.len(),
    decreases entries.len(),
{
    if entries.len() > 0 {
        lemma_total_counts_items(entries.drop_last());
        lemma_total_insert(
            insert_all(Seq::<Group<K>>::empty(), entries.drop_last()),
            entries.last().0,
            entries.last().1,
        );
    }
}

/// Adding an item under a pattern with one bit per hyperplane keeps the
/// buckets orderly.
pub proof fn lemma_insert_orderly<K>(
    groups: Seq<Group<K>>,
    planes: nat,
    pattern: Seq<bool>,
    item: K,
)
    requires
        orderly(groups, planes),
        pattern.len() == planes,
    ensures
        orderly(insert(groups, pattern, item), planes),
{
    let after = insert(groups, pattern, item);
    if present(groups, pattern) {
        let i = position(groups, pattern);
        assert forall|a: int, b: int| 0 <= a < b < after.len() implies (#[trigger] after[a]).pattern
            != (#[trigger] after[b]).pattern by {
            assert(after[a].pattern == groups[a].pattern);
            assert(after[b].pattern == groups[b].pattern);
        }
        assert forall|a: int| 0 <= a < after.len() implies (#[trigger] after[a]).pattern.len()
            == planes && after[a].items.len() > 0 by {
            assert(after[a].pattern == groups[a].pattern);
            if a != i {
                assert(after[a] == groups[a]);
            }
        }
    } else {
        assert forall|a: int, b: int| 0 <= a < b < after.len() implies (#[trigger] after[a]).pattern
            != (#[trigger] after[b]).pattern by {
            assert(after[a] == groups[a]);
            if b < groups.len() {
                assert(after[b] == groups[b]);
            }
        }
        assert forall|a: int| 0 <= a < after.len() implies (#[trigger] after[a]).pattern.len()
            == planes && after[a].items.len() > 0 by {
            if a < groups.len() {
                assert(after[a] == groups[a]);
            }
        }
    }
}

/// An item is found under its own pattern as soon as it was added.
pub proof fn lemma_added_is_held<K>(
    groups: Seq<Group<K>>,
    planes: nat,
    pattern: Seq<bool>,
    item: K,
)
    requires
        orderly(groups, planes),
        pattern.len() == planes,
    ensures
        holds(insert(groups, pattern, item), pattern, item),
{
    let after = insert(groups, pattern, item);
    lemma_insert_orderly(groups, planes, pattern, item);
    let i = if present(groups, pattern) {
        position(groups, pattern)
    } else {
        groups.len() as int
    };
    assert(after[i].pattern == pattern);
    lemma_position(after, pattern, i);
    assert(after[i].items.last() == item);
}

/// Nothing is ever lost: what lay in a bucket lies there after any later
/// addition.
pub proof fn lemma_held_stays<K>(
    groups: Seq<Group<K>>,
    planes: nat,
    pattern: Seq<bool>,
    item: K,
    other: Seq<bool>,
    earlier: K,
)
    requires
        orderly(groups, planes),
        pattern.len() == planes,
        holds(groups, other, earlier),
    ensures
        holds(insert(groups, pattern, item), other, earlier),
{
    let after = insert(groups, pattern, item);
    lemma_insert_orderly(groups, planes, pattern, item);
    let j = position(groups, other);
    assert(after[j].pattern == other);
    lemma_position(after, other, j);
    let w = choose|w: int| 0 <= w < groups[j].items.len() && groups[j].items[w] == earlier;
    assert(after[j].items[w] == earlier);
}

/// What an addition does to each bucket: the item goes behind those under
/// its pattern, and the buckets under other patterns stay as they are.
pub proof fn lemma_insert_lookup<K>(
    groups: Seq<Group<K>>,
    planes: nat,
    pattern: Seq<bool>,
    item: K,
)
    requires
        orderly(groups, planes),
        pattern.len() == planes,
    ensures
        lookup(insert(groups, pattern, item), pattern) == Some(
            match lookup(groups, pattern) {
                Some(items) => items.push(item),
                None => seq![item],
            },
        ),
        forall|other: Seq<bool>|
            other != pattern ==> lookup(insert(groups, pattern, item), other) == lookup(
                groups,
                other,
            ),
{
    let after = insert(groups, pattern, item);
    lemma_insert_orderly(groups, planes, pattern, item);
    let i = if present(groups, pattern) {
        position(groups, pattern)
    } else {
        groups.len() as int
    };
    assert(after[i].pattern == pattern);
    lemma_position(after, pattern, i);
    assert forall|other: Seq<bool>| other != pattern implies lookup(after, other) == lookup(
        groups,
        other,
    ) by {
        if present(groups, other) {
            let j = position(groups, other);
            assert(after[j] == groups[j]);
            lemma_position(after, other, j);
        } else if present(after, other) {
            let j = position(after, other);
            assert(j != i);
            assert(groups[j].pattern == other);
        }
    }
}

} // verus!
