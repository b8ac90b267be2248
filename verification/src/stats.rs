//! Sums, extremes and means of a run of numbers, taken from the first to the last.

use vstd::prelude::*;

use crate::ieee::mirror::{
    law_same_order, law_same_product, law_same_quotient, law_same_sum, same_run,
};
use crate::ieee::bounds::{law_sum_error, magnitude, value};
use crate::ieee::nearest::lemma_finite_terms;
use crate::ieee::scalar::{law_infinities, law_order, Single};

verus! {

/// The running sum on top of `start`.
pub open spec fn sum_from(start: Single, s: Seq<Single>) -> Single
    decreases s.len(),
{
    if s.len() == 0 {
        start
    } else {
        sum_from(start, s.drop_last()).plus(s.last())
    }
}

/// The sum of a run: an empty one sums to the negative zero, which leaves every number as it is.
pub open spec fn sum(s: Seq<Single>) -> Single {
    sum_from(Single { bits: 0x8000_0000 }, s)
}

/// The sum over the count.
pub open spec fn mean(s: Seq<Single>) -> Single {
    sum(s).over(Single::from_count(s.len() as usize))
}

/// The squared distance of each number from `center`.
pub open spec fn squared_distances(s: Seq<Single>, center: Single) -> Seq<Single> {
    s.map_values(|x: Single| x.minus(center).times(x.minus(center)))
}

/// The least of `start` and the run.
pub open spec fn lowest_from(start: Single, s: Seq<Single>) -> Single
    decreases s.len(),
{
    if s.len() == 0 {
        start
    } else if s.last().lt(lowest_from(start, s.drop_last())) {
        s.last()
    } else {
        lowest_from(start, s.drop_last())
    }
}

/// The greatest of `start` and the run.
pub open spec fn highest_from(start: Single, s: Seq<Single>) -> Single
    decreases s.len(),
{
    if s.len() == 0 {
        start
    } else if highest_from(start, s.drop_last()).lt(s.last()) {
        s.last()
    } else {
        highest_from(start, s.drop_last())
    }
}

/// The least number; positive infinity where there is none.
pub open spec fn lowest(s: Seq<Single>) -> Single {
    lowest_from(Single { bits: 0x7f80_0000 }, s)
}

/// The greatest number; negative infinity where there is none.
pub open spec fn highest(s: Seq<Single>) -> Single {
    highest_from(Single { bits: 0xff80_0000 }, s)
}

/// The number, or zero where it is not finite.
pub open spec fn finite_or_zero(x: Single) -> Single {
    if x.is_finite() {
        x
    } else {
        Single::zero()
    }
}

/// A copy of a run of numbers.
pub fn copy_of(s: &Vec<Single>) -> (r: Vec<Single>)
    ensures
        r@ == s@,
{
    let mut r: Vec<Single> = Vec::new();
    let mut i: usize = 0;
    while i < s.len()
        invariant
            i <= s@.len(),
            r@ == s@.take(i as int),
        decreases s@.len() - i,
    {
        r.push(s[i]);
        i = i + 1;
        assert(s@.take(i as int) =~= s@.take(i - 1).push(s@[i - 1]));
    }
    assert(s@.take(i as int) =~= s@);
    r
}

/// Adds a run up on top of `start`.
pub fn sum_of(start: Single, s: &[Single], count: usize) -> (r: Single)
    requires
        count <= s@.len(),
    ensures
        r == sum_from(start, s@.take(count as int)),
{
    let mut r = start;
    let mut i: usize = 0;
    while i < count
        invariant
            i <= count <= s@.len(),
            r == sum_from(start, s@.take(i as int)),
        decreases count - i,
    {
        assert(s@.take(i + 1).drop_last() =~= s@.take(i as int));
        r = r.plus(s[i]);
        i = i + 1;
    }
    r
}

/// The sum of a whole run.
pub fn total_of(s: &[Single]) -> (r: Single)
    ensures
        r == sum(s@),
{
    assert(s@.take(s@.len() as int) =~= s@);
    sum_of(Single::from_bits(0x8000_0000), s, s.len())
}

/// The mean of a run.
pub fn mean_of(s: &[Single]) -> (r: Single)
    ensures
        r == mean(s@),
{
    total_of(s).over(Single::from_count(s.len()))
}

/// The squared distance of each number from `center`.
pub fn squared_distances_of(s: &[Single], center: Single) -> (r: Vec<Single>)
    ensures
        r@ == squared_distances(s@, center),
{
    let mut r: Vec<Single> = Vec::new();
    let mut i: usize = 0;
    while i < s.len()
        invariant
            i <= s@.len(),
            r@.len() == i,
            forall|j: int| 0 <= j < i ==> r@[j] == squared_distances(s@, center)[j],
        decreases s@.len() - i,
    {
        let d = s[i].minus(center);
        r.push(d.times(d));
        i = i + 1;
    }
    assert(r@ =~= squared_distances(s@, center));
    r
}

/// The least of `start` and the first `count` numbers.
pub fn lowest_of(start: Single, s: &[Single], count: usize) -> (r: Single)
    requires
        count <= s@.len(),
    ensures
        r == lowest_from(start, s@.take(count as int)),
{
    let mut r = start;
    let mut i: usize = 0;
    while i < count
        invariant
            i <= count <= s@.len(),
            r == lowest_from(start, s@.take(i as int)),
        decreases count - i,
    {
        assert(s@.take(i + 1).drop_last() =~= s@.take(i as int));
        if s[i].lt(r) {
            r = s[i];
        }
        i = i + 1;
    }
    r
}

/// The greatest of `start` and the first `count` numbers.
pub fn highest_of(start: Single, s: &[Single], count: usize) -> (r: Single)
    requires
        count <= s@.len(),
    ensures
        r == highest_from(start, s@.take(count as int)),
{
    let mut r = start;
    let mut i: usize = 0;
    while i < count
        invariant
            i <= count <= s@.len(),
            r == highest_from(start, s@.take(i as int)),
        decreases count - i,
    {
        assert(s@.take(i + 1).drop_last() =~= s@.take(i as int));
        if r.lt(s[i]) {
            r = s[i];
        }
        i = i + 1;
    }
    r
}

/// Of finite numbers, the least and the greatest are among them and bound them all.
pub proof fn lemma_extremes(v: Seq<Single>)
    requires
        forall|i: int| 0 <= i < v.len() ==> (#[trigger] v[i]).is_finite(),
    ensures
        forall|i: int| 0 <= i < v.len() ==> lowest(v).le(#[trigger] v[i]) && v[i].le(highest(v)),
        v.len() > 0 ==> v.contains(lowest(v)) && v.contains(highest(v)),
        v.len() > 0 ==> lowest(v).is_finite() && highest(v).is_finite(),
    decreases v.len(),
{
    if v.len() > 0 {
        let t = v.drop_last();
        let x = v.last();
        lemma_extremes(t);
        law_infinities(x);
        if t.len() > 0 {
            let i = choose|i: int| 0 <= i < t.len() && t[i] == lowest(t);
            assert(v[i] == lowest(t));
            let j = choose|j: int| 0 <= j < t.len() && t[j] == highest(t);
            assert(v[j] == highest(t));
            law_infinities(lowest(t));
            law_infinities(highest(t));
        }
        assert(v[v.len() - 1] == x);
        assert forall|i: int| 0 <= i < v.len() implies lowest(v).le(#[trigger] v[i]) && v[i].le(
            highest(v),
        ) by {
            law_infinities(v[i]);
            law_order(x, x, x);
            if i < t.len() {
                assert(t[i] == v[i]);
                law_order(x, lowest(t), t[i]);
                law_order(t[i], highest(t), x);
                law_order(x, t[i], x);
                law_order(t[i], x, x);
            } else {
                law_order(x, lowest(t), x);
                law_order(x, highest(t), x);
            }
        }
    }
}

/// The sum of a run whose numbers are turned is turned.
pub proof fn lemma_same_sum(start: Single, s: Seq<Single>, r: Seq<Single>, turned: bool)
    requires
        same_run(s, r, turned),
        start.number().magnitude == 0,
    ensures
        sum_from(start, s).same(sum_from(start, r), turned),
    decreases s.len(),
{
    if s.len() > 0 {
        let (a, b) = (s.drop_last(), r.drop_last());
        assert forall|i: int| 0 <= i < a.len() implies (#[trigger] a[i]).same(b[i], turned) by {
            assert(s[i].same(r[i], turned));
        }
        lemma_same_sum(start, a, b, turned);
        assert(s[s.len() - 1].same(r[s.len() - 1], turned));
        law_same_sum(sum_from(start, a), s.last(), sum_from(start, b), r.last(), turned);
    }
}

/// The mean of a run whose numbers are turned is turned, and the squared distances from it stay.
pub proof fn lemma_same_mean(s: Seq<Single>, r: Seq<Single>, turned: bool)
    requires
        same_run(s, r, turned),
    ensures
        mean(s).same(mean(r), turned),
        same_run(squared_distances(s, mean(s)), squared_distances(r, mean(r)), false),
{
    lemma_same_sum(Single { bits: 0x8000_0000 }, s, r, turned);
    let n = Single::from_count(s.len() as usize);
    law_same_quotient(sum(s), n, sum(r), n, turned, false);
    let (a, b) = (squared_distances(s, mean(s)), squared_distances(r, mean(r)));
    assert forall|i: int| 0 <= i < a.len() implies (#[trigger] a[i]).same(b[i], false) by {
        assert(s[i].same(r[i], turned));
        law_same_sum(s[i], mean(s), r[i], mean(r), turned);
        let (x, y) = (s[i].minus(mean(s)), r[i].minus(mean(r)));
        law_same_product(x, x, y, y, turned, turned);
    }
}

/// Of a run whose numbers are turned, the least is the greatest turned and the other way round.
pub proof fn lemma_turned_extremes(s: Seq<Single>, r: Seq<Single>)
    requires
        same_run(s, r, true),
    ensures
        lowest(s).same(highest(r), true),
        highest(s).same(lowest(r), true),
    decreases s.len(),
{
    if s.len() > 0 {
        let (a, b) = (s.drop_last(), r.drop_last());
        assert forall|i: int| 0 <= i < a.len() implies (#[trigger] a[i]).same(b[i], true) by {
            assert(s[i].same(r[i], true));
        }
        lemma_turned_extremes(a, b);
        assert(s[s.len() - 1].same(r[s.len() - 1], true));
        law_same_order(s.last(), lowest(a), r.last(), highest(b), true);
        law_same_order(highest(a), s.last(), lowest(b), r.last(), true);
    }
}

/// One more number is added to the sum of the others, and nothing adds up to where it started.
pub proof fn law_sum_of_one_more(start: Single, s: Seq<Single>, x: Single)
    ensures
        sum_from(start, s.push(x)) == sum_from(start, s).plus(x),
        sum_from(start, seq![]) == start,
        sum(s.push(x)) == sum(s).plus(x),
        sum(seq![]).number().magnitude == 0,
        s.len() < usize::MAX ==> mean(s.push(x)) == sum(s).plus(x).over(
            Single::from_count((s.len() + 1) as usize),
        ),
{
    assert(s.push(x).drop_last() =~= s);
}

/// The values of a run, added up exactly.
pub open spec fn exact_sum(s: Seq<Single>) -> int
    decreases s.len(),
{
    if s.len() == 0 {
        0
    } else {
        exact_sum(s.drop_last()) + value(s.last())
    }
}

/// The magnitudes of a run, added up exactly.
pub open spec fn exact_size(s: Seq<Single>) -> int
    decreases s.len(),
{
    if s.len() == 0 {
        0
    } else {
        exact_size(s.drop_last()) + magnitude(value(s.last()))
    }
}

/// A sum is the exact sum of the values, up to as many parts in `2^23` of all magnitudes as there are
/// numbers.
pub proof fn law_sum_is_near(start: Single, s: Seq<Single>)
    requires
        start.number().magnitude == 0,
        s.len() <= 0x40_0000,
        forall|i: int| 0 <= i < s.len() ==> (#[trigger] s[i]).is_finite(),
        sum_from(start, s).is_finite(),
    ensures
        magnitude(value(sum_from(start, s)) - exact_sum(s)) * 0x80_0000 <= s.len() * exact_size(s),
        exact_size(s) >= 0,
        magnitude(exact_sum(s)) <= exact_size(s),
    decreases s.len(),
{
    if s.len() > 0 {
        let t = s.drop_last();
        let x = s.last();
        let n = s.len() as int;
        assert(s[n - 1].is_finite());
        assert forall|i: int| 0 <= i < t.len() implies (#[trigger] t[i]).is_finite() by {
            assert(s[i].is_finite());
        }
        let before = sum_from(start, t);
        lemma_finite_before(before, x);
        law_sum_is_near(start, t);
        law_sum_error(before, x);
        let (e, m) = (magnitude(value(before) - exact_sum(t)), exact_size(t));
        let w = magnitude(value(x));
        assert(e <= m) by (nonlinear_arith)
            requires
                e * 0x80_0000 <= (n - 1) * m,
                0 < n <= 0x40_0000,
                m >= 0,
                e >= 0,
        ;
        let f = magnitude(value(sum_from(start, s)) - (value(before) + value(x)));
        assert(f * 0x100_0000 <= 2 * m + w);
        let total = magnitude(value(sum_from(start, s)) - exact_sum(s));
        assert(total <= e + f);
        assert(n * (m + w) == (n - 1) * m + m + n * w) by (nonlinear_arith);
        assert(n * w >= w) by (nonlinear_arith)
            requires
                n >= 1,
                w >= 0,
        ;
        assert(total * 0x80_0000 <= n * (m + w));
    } else {
        crate::ieee::number::lemma_units_zero(0, 23);
        assert(0 * exact_size(s) == 0);
    }
}

/// Of a finite sum with a finite last term, the sum before it is finite.
proof fn lemma_finite_before(a: Single, x: Single)
    requires
        x.is_finite(),
        a.plus(x).is_finite(),
    ensures
        a.is_finite(),
{
    crate::ieee::mirror::law_sum_commutes(a, x);
    crate::ieee::mirror::law_same(a.plus(x), x.plus(a), a, false, false);
    lemma_finite_terms(x, a);
}

/// One more number: it becomes the least where it is below the least so far, and the greatest where it is
/// above; what is no number changes neither. Of nothing the extremes are where they started.
pub proof fn law_extremes_of_one_more(start: Single, s: Seq<Single>, x: Single)
    ensures
        lowest_from(start, seq![]) == start,
        highest_from(start, seq![]) == start,
        lowest_from(start, s.push(x)) == if x.lt(lowest_from(start, s)) {
            x
        } else {
            lowest_from(start, s)
        },
        highest_from(start, s.push(x)) == if highest_from(start, s).lt(x) {
            x
        } else {
            highest_from(start, s)
        },
        lowest(s) == lowest_from(Single::from_bits(0x7f80_0000), s),
        highest(s) == highest_from(Single::from_bits(0xff80_0000), s),
        x.is_finite() ==> finite_or_zero(x) == x,
        !x.is_finite() ==> finite_or_zero(x) == Single::from_bits(0),
{
    assert(s.push(x).drop_last() =~= s);
}

} // verus!
