//! What the power-law fit is computed from: the observed degrees in
//! ascending order, each with its count, and the number of observations.

use std::collections::HashMap;
use vstd::prelude::*;

verus! {

/// The exponent of the power law that a distribution is held against, as a
/// fraction: the weight of degree `d` is `d` raised to minus the numerator
/// over the denominator.
pub const EXPONENT_NUMERATOR: u32 = 5;

/// The denominator of the exponent.
pub const EXPONENT_DENOMINATOR: u32 = 2;

/// Why a distribution cannot be scored.
#[derive(Debug, PartialEq, Eq, Clone, Copy)]
pub enum PowerLawError {
    /// The distribution holds no observation: it has no entry, or every
    /// count in it is 0.
    EmptyDistribution,
    /// The distribution has an entry for degree 0, which has no weight under
    /// a power law.
    ZeroDegree,
}

/// One entry of a distribution: a degree and the number of nodes that have it.
#[derive(Debug, PartialEq, Eq, Clone, Copy)]
pub struct DegreeCount {
    pub degree: usize,
    pub count: usize,
}

/// A distribution made ready for scoring.
pub struct Observed {
    /// The sum of the counts.
    pub total: u128,
    /// The entries, by ascending degree.
    pub points: Vec<DegreeCount>,
}

/// Each element is less than the next.
pub open spec fn strictly_ascending(s: Seq<usize>) -> bool {
    forall|i: int, j: int| 0 <= i < j < s.len() ==> s[i] < s[j]
}

/// The degrees of `points`, in their order.
pub open spec fn degrees_of(points: Seq<DegreeCount>) -> Seq<usize> {
    points.map_values(|p: DegreeCount| p.degree)
}

/// The sum of the counts of `points`.
pub open spec fn sum_of_counts(points: Seq<DegreeCount>) -> nat
    decreases points.len(),
{
    if points.len() == 0 {
        0
    } else {
        sum_of_counts(points.drop_last()) + points.last().count as nat
    }
}

/// `points` holds the entries of `h`, each once, by ascending degree.
pub open spec fn lists_entries(points: Seq<DegreeCount>, h: Map<usize, usize>) -> bool {
    &&& strictly_ascending(degrees_of(points))
    &&& forall|d: usize| h.contains_key(d) <==> degrees_of(points).contains(d)
    &&& forall|i: int| 0 <= i < points.len() ==> h[(#[trigger] points[i]).degree] == points[i].count
}

/// Every count in `h` is 0.
pub open spec fn all_counts_zero(h: Map<usize, usize>) -> bool {
    forall|d: usize| h.contains_key(d) ==> h[d] == 0
}

/// Puts `x` into the ascending `v`, unless it is there.
fn insert_ascending(v: &mut Vec<usize>, x: usize)
    requires
        strictly_ascending(old(v)@),
    ensures
        strictly_ascending(final(v)@),
        forall|y: usize| final(v)@.contains(y) <==> old(v)@.contains(y) || y == x,
{
    let mut at: usize = 0;
    while at < v.len() && v[at] < x
        invariant
            *v == *old(v),
            at <= v@.len(),
            forall|i: int| 0 <= i < at ==> v@[i] < x,
        decreases v@.len() - at,
    {
        at += 1;
    }
    if at < v.len() && v[at] == x {
        assert(v@.contains(x));
        assert forall|y: usize| v@.contains(y) || y == x implies v@.contains(y) by {}
    } else {
        v.insert(at, x);
        proof {
            let before = old(v)@;
            let after = v@;
            assert(after[at as int] == x);
            assert forall|y: usize| before.contains(y) implies after.contains(y) by {
                let i = choose|i: int| 0 <= i < before.len() && before[i] == y;
                if i < at {
                    assert(after[i] == y);
                } else {
                    assert(after[i + 1] == y);
                }
            }
            assert forall|y: usize| after.contains(y) implies before.contains(y) || y == x by {
                let i = choose|i: int| 0 <= i < after.len() && after[i] == y;
                if i < at {
                    assert(before[i] == y);
                } else if i > at {
                    assert(before[i - 1] == y);
                }
            }
            assert forall|i: int, j: int| 0 <= i < j < after.len() implies after[i] < after[j] by {
                let bi = if i < at { i } else { i - 1 };
                let bj = if j < at { j } else { j - 1 };
                if i != at && j != at {
                    assert(before[bi] < before[bj]);
                } else if i == at {
                    assert(before[at as int] >= x);
                    if j - 1 > at {
                        assert(before[at as int] < before[j - 1]);
                    }
                }
            }
        }
    }
}

/// The degrees that `distribution` has an entry for, ascending.
pub fn sorted_degrees(distribution: &HashMap<usize, usize>) -> (degrees: Vec<usize>)
    ensures
        strictly_ascending(degrees@),
        forall|d: usize| distribution@.contains_key(d) <==> degrees@.contains(d),
{
    broadcast use vstd::std_specs::hash::group_hash_axioms;

    let mut degrees: Vec<usize> = Vec::new();
    for key in it: distribution.keys()
        invariant
            strictly_ascending(degrees@),
            it.seq().unref().to_set() == distribution@.dom(),
            forall|x: usize|
                degrees@.contains(x) <==> exists|j: int| 0 <= j < it.index() && it.seq().unref()[j] == x,
    {
        insert_ascending(&mut degrees, *key);
    }
    degrees
}

/// Counts that are all 0 add up to 0.
pub proof fn lemma_sum_of_zero_counts(points: Seq<DegreeCount>)
    requires
        forall|i: int| 0 <= i < points.len() ==> (#[trigger] points[i]).count == 0,
    ensures
        sum_of_counts(points) == 0,
    decreases points.len(),
{
    if points.len() > 0 {
        assert forall|i: int| 0 <= i < points.len() - 1 implies (#[trigger] points.drop_last()[i]).count == 0 by {
            assert(points.drop_last()[i] == points[i]);
        }
        lemma_sum_of_zero_counts(points.drop_last());
    }
}

/// A sum of counts is 0 only where every count is.
pub proof fn lemma_sum_zero(points: Seq<DegreeCount>)
    requires
        sum_of_counts(points) == 0,
    ensures
        forall|i: int| 0 <= i < points.len() ==> (#[trigger] points[i]).count == 0,
    decreases points.len(),
{
    if points.len() > 0 {
        lemma_sum_zero(points.drop_last());
        assert forall|i: int| 0 <= i < points.len() implies (#[trigger] points[i]).count == 0 by {
            if i < points.len() - 1 {
                assert(points.drop_last()[i] == points[i]);
            }
        }
    }
}

/// Where a distribution has one entry only, its listing has that entry
/// only, and the sum of the counts is the count of that entry: the one degree
/// is observed with probability 1.
pub proof fn lemma_single_entry(points: Seq<DegreeCount>, h: Map<usize, usize>, d: usize)
    requires
        lists_entries(points, h),
        h.dom() == set![d],
    ensures
        points.len() == 1,
        points[0] == (DegreeCount { degree: d, count: h[d] }),
        sum_of_counts(points) == h[d],
{
    let degrees = degrees_of(points);
    assert(h.contains_key(d));
    assert(degrees.contains(d));
    assert(points.len() == 1) by {
        if points.len() > 1 {
            assert(degrees[0] < degrees[1]);
            assert(degrees.contains(degrees[0]) && degrees.contains(degrees[1]));
            assert(h.dom().contains(degrees[0]) && h.dom().contains(degrees[1]));
        }
    }
    assert(degrees.contains(degrees[0]));
    assert(h.dom().contains(degrees[0]));
    assert(points[0].degree == d);
    assert(points.drop_last().len() == 0);
    assert(sum_of_counts(points) == sum_of_counts(points.drop_last()) + points.last().count as nat);
}

/// Makes a distribution ready for scoring: its entries by ascending degree,
/// and the sum of the counts. A distribution with an entry for degree 0 is
/// refused, and so is one without an observation.
pub fn observe_distribution(distribution: &HashMap<usize, usize>) -> (r: Result<Observed, PowerLawError>)
    ensures
        match r {
            Ok(o) => {
                &&& lists_entries(o.points@, distribution@)
                &&& o.total == sum_of_counts(o.points@)
                &&& o.total > 0
                &&& !distribution@.contains_key(0)
                &&& !all_counts_zero(distribution@)
            },
            Err(PowerLawError::ZeroDegree) => distribution@.contains_key(0),
            Err(PowerLawError::EmptyDistribution) => !distribution@.contains_key(0) && all_counts_zero(
                distribution@,
            ),
        },
{
    broadcast use vstd::std_specs::hash::group_hash_axioms;

    let degrees = sorted_degrees(distribution);
    if degrees.len() > 0 && degrees[0] == 0 {
        assert(degrees@.contains(0));
        return Err(PowerLawError::ZeroDegree);
    }
    assert(!degrees@.contains(0)) by {
        if degrees@.contains(0) {
            let i = choose|i: int| 0 <= i < degrees@.len() && degrees@[i] == 0;
            assert(i > 0 ==> degrees@[0] < degrees@[i]);
        }
    }
    let mut points: Vec<DegreeCount> = Vec::new();
    let mut total: u128 = 0;
    let mut i: usize = 0;
    while i < degrees.len()
        invariant
            i <= degrees@.len(),
            forall|d: usize| distribution@.contains_key(d) <==> degrees@.contains(d),
            points@.len() == i,
            degrees_of(points@) == degrees@.take(i as int),
            forall|j: int| 0 <= j < i ==> distribution@[(#[trigger] points@[j]).degree] == points@[j].count,
            total == sum_of_counts(points@),
            total <= i * usize::MAX,
        decreases degrees@.len() - i,
    {
        let degree = degrees[i];
        assert(degrees@.contains(degree));
        let count: usize = match distribution.get(&degree) {
            Some(c) => *c,
            None => 0,
        };
        proof {
            assert((i + 1) * usize::MAX <= u128::MAX) by (nonlinear_arith)
                requires
                    0 <= i < usize::MAX,
                    usize::MAX <= 0xffff_ffff_ffff_ffff,
            ;
            assert((i + 1) * usize::MAX == i * usize::MAX + usize::MAX) by (nonlinear_arith);
            assert(points@.push(DegreeCount { degree, count }).drop_last() =~= points@);
            assert(degrees_of(points@.push(DegreeCount { degree, count })) =~= degrees@.take(i + 1));
        }
        points.push(DegreeCount { degree, count });
        total = total + count as u128;
        i += 1;
    }
    proof {
        assert(degrees@.take(i as int) =~= degrees@);
    }
    if total == 0 {
        proof {
            lemma_sum_zero(points@);
            assert forall|d: usize| distribution@.contains_key(d) implies distribution@[d] == 0 by {
                assert(degrees@.contains(d));
                let j = choose|j: int| 0 <= j < degrees@.len() && degrees@[j] == d;
                assert(degrees_of(points@)[j] == points@[j].degree);
            }
        }
        return Err(PowerLawError::EmptyDistribution);
    }
    proof {
        if all_counts_zero(distribution@) {
            assert forall|j: int| 0 <= j < points@.len() implies (#[trigger] points@[j]).count == 0 by {
                assert(degrees@[j] == degrees_of(points@)[j]);
                assert(degrees@.contains(points@[j].degree));
            }
            lemma_sum_of_zero_counts(points@);
        }
    }
    Ok(Observed { total, points })
}

} // verus!
