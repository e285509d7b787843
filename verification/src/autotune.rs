//! Choosing the number of hyperplanes for a target bucket size.
//!
//! The search tries growing numbers of hyperplanes. For each, the caller
//! builds a table over its sample and reports the average bucket size; the
//! search says whether to go on, and in the end which number it settles on.
//! Building the tables takes random hyperplanes and projections, which is
//! the caller's part: here are the decisions.

use crate::binary32::log2_floor;
use crate::binary32::whole_log2;
use crate::hyperindex::Average;
use vstd::prelude::*;

verus! {

/// The greatest number of hyperplanes that the search tries.
pub const LAST_PLANES: u8 = 254;

/// The base-two logarithm, rounded down; 0 for 0.
pub open spec fn floor_log2(n: nat) -> nat
    decreases n,
{
    if n <= 1 {
        0
    } else {
        1 + floor_log2(n / 2)
    }
}

/// The number of hyperplanes to try first: the logarithm of the sample size
/// (1 for an empty sample) less that of the target bucket size, which is
/// given as a binary32 bit pattern; the difference held between 2 and 255,
/// and then lowered by 2 so as not to start too high.
pub open spec fn first_planes(sample_count: nat, group_size: u32) -> nat {
    let wide = if sample_count == 0 {
        1
    } else {
        floor_log2(sample_count)
    };
    let guess = wide - whole_log2(group_size);
    if guess < 2 {
        0
    } else if guess > 255 {
        253
    } else {
        (guess - 2) as nat
    }
}

/// The state in which a search starts.
pub open spec fn fresh(sample_count: nat, group_size: u32) -> PlaneSearch {
    PlaneSearch {
        target: group_size,
        planes: first_planes(sample_count, group_size) as u8,
        best_planes: 0,
        best: None,
    }
}

/// The logarithm never exceeds its argument.
pub proof fn lemma_floor_log2_small(n: nat)
    ensures
        floor_log2(n) <= n,
    decreases n,
{
    if n > 1 {
        lemma_floor_log2_small(n / 2);
    }
}

/// The logarithm is the exponent of the greatest power of two that does not
/// exceed the argument.
pub proof fn lemma_floor_log2(n: nat)
    requires
        n >= 1,
    ensures
        vstd::arithmetic::power2::pow2(floor_log2(n)) <= n < vstd::arithmetic::power2::pow2(
            floor_log2(n) + 1,
        ),
    decreases n,
{
    vstd::arithmetic::power2::lemma2_to64();
    if n > 1 {
        lemma_floor_log2(n / 2);
        vstd::arithmetic::power2::lemma_pow2_unfold(floor_log2(n));
        vstd::arithmetic::power2::lemma_pow2_unfold(floor_log2(n) + 1);
    }
}

/// The base-two logarithm, rounded down; 0 for 0.
pub fn log2(n: usize) -> (r: usize)
    ensures
        r == floor_log2(n as nat),
{
    let mut rest: usize = n;
    let mut r: usize = 0;
    while rest > 1
        invariant
            r + floor_log2(rest as nat) == floor_log2(n as nat),
        decreases rest,
    {
        proof {
            lemma_floor_log2_small(n as nat);
        }
        rest = rest / 2;
        r += 1;
    }
    r
}

/// The state of a search: the number of hyperplanes to try next, and the
/// best of those tried that were above the target, with its average. Before
/// anything was tried the best number is 0 and there is no average.
#[derive(Clone, Copy, Debug, PartialEq, Eq)]
pub struct PlaneSearch {
    pub target: u32,
    pub planes: u8,
    pub best_planes: u8,
    pub best: Option<Average>,
}

/// What a search asks for next.
#[derive(Clone, Copy, Debug, PartialEq, Eq)]
pub enum SearchStep {
    /// Measure the average bucket size with as many hyperplanes as the
    /// state says, and report it.
    Measure(PlaneSearch),
    /// The search is over: this is the number of hyperplanes.
    Done(u8),
}

impl PlaneSearch {
    /// Whether a measurement becomes the best: it is above the target, and
    /// below the best so far if there is one.
    pub open spec fn improves(self, average: Average) -> bool {
        average.above(self.target) && match self.best {
            Some(best) => average.below(best),
            None => true,
        }
    }

    /// The state after the measurement for `self.planes` has been taken
    /// note of.
    pub open spec fn noted(self, average: Average) -> PlaneSearch {
        if self.improves(average) {
            PlaneSearch { best_planes: self.planes, best: Some(average), ..self }
        } else {
            self
        }
    }

    /// Whether the search ends with this measurement: it is not above the
    /// target, or there is no greater number to try.
    pub open spec fn ends(self, average: Average) -> bool {
        !average.above(self.target) || self.planes >= LAST_PLANES
    }

    /// What follows the measurement for `self.planes`. An average that is
    /// not above the target ends the search, and this number of
    /// hyperplanes is its result. An average above the target is taken note
    /// of; the search then goes on with one hyperplane more, or, where there
    /// is no greater number to try, ends with the best number noted.
    pub open spec fn step(self, average: Average) -> SearchStep {
        if !average.above(self.target) {
            SearchStep::Done(self.planes)
        } else if self.planes >= LAST_PLANES {
            SearchStep::Done(self.noted(average).best_planes)
        } else {
            SearchStep::Measure(
                PlaneSearch { planes: (self.planes + 1) as u8, ..self.noted(average) },
            )
        }
    }

    /// A search for a sample of `sample_count` vectors and a target of
    /// `group_size` items to the bucket, given as a binary32 bit pattern.
    pub fn start(sample_count: usize, group_size: u32) -> (search: PlaneSearch)
        ensures
            search == fresh(sample_count as nat, group_size),
    {
        let wide: usize = if sample_count == 0 {
            1
        } else {
            log2(sample_count)
        };
        let narrow: usize = log2_floor(group_size);
        let planes: u8 = if wide < narrow || wide - narrow < 2 {
            0
        } else if wide - narrow > 255 {
            253
        } else {
            (wide - narrow - 2) as u8
        };
        PlaneSearch { target: group_size, planes, best_planes: 0, best: None }
    }

    /// Takes the average bucket size that was measured with `self.planes`
    /// hyperplanes, and says what follows.
    pub fn observe(self, average: Average) -> (next: SearchStep)
        ensures
            next == self.step(average),
    {
        let above = average.is_above(self.target);
        let improves = above && match self.best {
            Some(best) => average.is_below(&best),
            None => true,
        };
        let noted = if improves {
            PlaneSearch {
                target: self.target,
                planes: self.planes,
                best_planes: self.planes,
                best: Some(average),
            }
        } else {
            self
        };
        if !above {
            SearchStep::Done(self.planes)
        } else if self.planes >= LAST_PLANES {
            SearchStep::Done(noted.best_planes)
        } else {
            SearchStep::Measure(
                PlaneSearch {
                    target: noted.target,
                    planes: self.planes + 1,
                    best_planes: noted.best_planes,
                    best: noted.best,
                },
            )
        }
    }
}

/// The result of a search that is given the measurements one after the
/// other, the first for `search.planes`; nothing if they run out before the
/// search ends.
pub open spec fn outcome(search: PlaneSearch, averages: Seq<Average>) -> Option<u8>
    decreases averages.len(),
{
    if averages.len() == 0 {
        None
    } else {
        match search.step(averages.first()) {
            SearchStep::Done(planes) => Some(planes),
            SearchStep::Measure(next) => outcome(next, averages.drop_first()),
        }
    }
}

/// Whether a new search that is given these measurements ends with the last
/// of them: all before it are above the target, and it is not, or it is the
/// one for the last number of hyperplanes.
pub open spec fn complete(search: PlaneSearch, averages: Seq<Average>) -> bool {
    &&& averages.len() > 0
    &&& search.planes + averages.len() - 1 <= LAST_PLANES
    &&& forall|i: int|
        0 <= i < averages.len() - 1 ==> (#[trigger] averages[i]).above(search.target)
    &&& (!averages.last().above(search.target) || search.planes + averages.len() - 1
        == LAST_PLANES)
}

/// Whether measurement `i` is the least of those above the target, and the
/// first such.
pub open spec fn least_above(target: u32, averages: Seq<Average>, i: int) -> bool {
    &&& 0 <= i < averages.len()
    &&& averages[i].above(target)
    &&& forall|j: int|
        0 <= j < averages.len() && (#[trigger] averages[j]).above(target) ==> !averages[j].below(
            averages[i],
        )
    &&& forall|j: int|
        0 <= j < i && (#[trigger] averages[j]).above(target) ==> averages[i].below(averages[j])
}

/// Of three averages above zero, one that is below the second is below the
/// third, or the third is below the second.
proof fn lemma_between(x: Average, b: Average, y: Average)
    requires
        x.total > 0,
        b.total > 0,
        y.total > 0,
        x.below(b),
    ensures
        x.below(y) || y.below(b),
{
    let tx = x.total as int;
    let cx = x.count as int;
    let tb = b.total as int;
    let cb = b.count as int;
    let ty = y.total as int;
    let cy = y.count as int;
    if !x.below(y) && !y.below(b) {
        assert(tx * cb * ty < tb * cx * ty) by (nonlinear_arith)
            requires
                tx * cb < tb * cx,
                ty > 0,
        ;
        assert(tb * cx * ty <= tb * tx * cy) by (nonlinear_arith)
            requires
                ty * cx <= tx * cy,
                tb > 0,
        ;
        assert(tb * tx * cy <= tx * cb * ty) by (nonlinear_arith)
            requires
                tb * cy <= ty * cb,
                tx > 0,
        ;
    }
}

/// What a search that started anew has noted after measurements that were
/// all above the target: the least of them, and the first such.
proof fn lemma_noted(search: PlaneSearch, averages: Seq<Average>, n: int)
    requires
        search.best is None,
        0 <= n <= averages.len(),
        search.planes + n <= 255,
        forall|i: int| 0 <= i < n ==> (#[trigger] averages[i]).above(search.target),
    ensures
        after(search, averages, n).target == search.target,
        after(search, averages, n).planes == search.planes + n,
        n == 0 ==> after(search, averages, n) == search,
        n > 0 ==> {
            let now = after(search, averages, n);
            let i = now.best_planes - search.planes;
            &&& now.best == Some(averages[i])
            &&& least_above(search.target, averages.take(n), i)
        },
    decreases n,
{
    if n > 0 {
        lemma_noted(search, averages, n - 1);
        let before = after(search, averages, n - 1);
        let now = after(search, averages, n);
        let x = averages[n - 1];
        let seen = averages.take(n);
        assert(now == PlaneSearch { planes: (before.planes + 1) as u8, ..before.noted(x) });
        assert(x.total > 0);
        if n == 1 {
            assert(least_above(search.target, seen, 0));
        } else {
            let i = before.best_planes - search.planes;
            let b = averages[i];
            assert(least_above(search.target, averages.take(n - 1), i));
            assert(b.total > 0);
            assert forall|j: int| 0 <= j < n - 1 implies seen[j] == averages.take(n - 1)[j] by {}
            if x.below(b) {
                assert forall|j: int| 0 <= j < seen.len() && (#[trigger] seen[j]).above(
                    search.target,
                ) implies !seen[j].below(x) && (j < n - 1 ==> x.below(seen[j])) by {
                    if j < n - 1 {
                        let y = seen[j];
                        assert(y == averages.take(n - 1)[j]);
                        assert(!y.below(b));
                        assert(y.total > 0);
                        lemma_between(x, b, y);
                    }
                }
                assert(least_above(search.target, seen, n - 1));
            } else {
                assert forall|j: int| 0 <= j < seen.len() && (#[trigger] seen[j]).above(
                    search.target,
                ) implies !seen[j].below(seen[i]) by {
                    if j < n - 1 {
                        assert(seen[j] == averages.take(n - 1)[j]);
                    }
                }
                assert forall|j: int| 0 <= j < i && (#[trigger] seen[j]).above(
                    search.target,
                ) implies seen[i].below(seen[j]) by {
                    assert(seen[j] == averages.take(n - 1)[j]);
                }
                assert(least_above(search.target, seen, i));
            }
        }
    }
}

/// The state of a search after the first `n` measurements, none of which
/// ended it.
pub open spec fn after(search: PlaneSearch, averages: Seq<Average>, n: int) -> PlaneSearch
    decreases n,
{
    if n <= 0 {
        search
    } else {
        let before = after(search, averages, n - 1);
        PlaneSearch { planes: (before.planes + 1) as u8, ..before.noted(averages[n - 1]) }
    }
}

/// A search that goes through `n` measurements without ending comes out as
/// the search from the state after them does.
pub proof fn lemma_outcome_after(search: PlaneSearch, averages: Seq<Average>, n: int)
    requires
        0 <= n < averages.len(),
        search.planes + n <= LAST_PLANES,
        forall|i: int| 0 <= i < n ==> (#[trigger] averages[i]).above(search.target),
    ensures
        outcome(search, averages) == outcome(after(search, averages, n), averages.skip(n)),
        after(search, averages, n).target == search.target,
        after(search, averages, n).planes == search.planes + n,
    decreases n,
{
    if n == 0 {
        assert(averages.skip(0) =~= averages);
    } else {
        lemma_outcome_after(search, averages, n - 1);
        let before = after(search, averages, n - 1);
        let rest = averages.skip(n - 1);
        assert(rest.first() == averages[n - 1]);
        assert(rest.drop_first() =~= averages.skip(n));
        assert(!before.ends(averages[n - 1]));
    }
}

/// What a search settles on. Given the measurements up to the one that ends
/// it, a new search returns the number of hyperplanes of the last
/// measurement where that one is not above the target. Where it is, no
/// number up to the last brought the average down to the target, and the
/// search returns the number whose average is the least, the first such if
/// several are level.
pub proof fn lemma_outcome(search: PlaneSearch, averages: Seq<Average>)
    requires
        search.best is None,
        complete(search, averages),
    ensures
        outcome(search, averages) is Some,
        !averages.last().above(search.target) ==> outcome(search, averages).unwrap()
            == search.planes + averages.len() - 1,
        averages.last().above(search.target) ==> search.planes + averages.len() - 1
            == LAST_PLANES && least_above(
            search.target,
            averages,
            outcome(search, averages).unwrap() - search.planes,
        ),
{
    let n = averages.len() - 1;
    let last = averages.last();
    lemma_outcome_after(search, averages, n);
    let before = after(search, averages, n);
    let rest = averages.skip(n);
    assert(rest.first() == last);
    assert(before.ends(last));
    if last.above(search.target) {
        assert(outcome(search, averages) == Some(before.noted(last).best_planes));
        lemma_noted(search, averages, n + 1);
        assert(averages.take(n + 1) =~= averages);
        assert(after(search, averages, n + 1).best_planes == before.noted(last).best_planes);
    } else {
        assert(outcome(search, averages) == Some(before.planes));
    }
}

/// A search that ends meets the target, unless it went through every
/// number: where it ends before the last number of hyperplanes, or with an
/// average that is not above the target, the number that it returns is one
/// that was measured, and its average is not above the target.
pub proof fn lemma_outcome_meets_target(search: PlaneSearch, averages: Seq<Average>)
    requires
        search.best is None,
        complete(search, averages),
        search.planes + averages.len() - 1 < LAST_PLANES || !averages.last().above(search.target),
    ensures
        outcome(search, averages) is Some,
        search.planes <= outcome(search, averages).unwrap() < search.planes + averages.len(),
        !averages[outcome(search, averages).unwrap() - search.planes].above(search.target),
{
    lemma_outcome(search, averages);
}

/// Whether the averages are what `measure` gave for growing numbers of
/// hyperplanes, the first for `first`.
pub open spec fn measured<F: Fn(u8) -> Average>(
    measure: F,
    first: u8,
    averages: Seq<Average>,
) -> bool {
    forall|i: int|
        0 <= i < averages.len() ==> first + i <= LAST_PLANES && call_ensures(
            measure,
            ((first + i) as u8,),
            #[trigger] averages[i],
        )
}

/// Whether a search that starts in the given state and is given what
/// `measure` gives ends with the last of the averages, on `planes`.
pub open spec fn settles<F: Fn(u8) -> Average>(
    measure: F,
    search: PlaneSearch,
    averages: Seq<Average>,
    planes: u8,
) -> bool {
    &&& measured(measure, search.planes, averages)
    &&& complete(search, averages)
    &&& outcome(search, averages) == Some(planes)
}

/// The state after `n` measurements depends on those `n` alone.
pub proof fn lemma_after_prefix(search: PlaneSearch, short: Seq<Average>, long: Seq<Average>, n: int)
    requires
        0 <= n <= short.len() <= long.len(),
        forall|i: int| 0 <= i < short.len() ==> short[i] == long[i],
    ensures
        after(search, short, n) == after(search, long, n),
    decreases n,
{
    if n > 0 {
        lemma_after_prefix(search, short, long, n - 1);
    }
}

} // verus!
