//! What charts are drawn from: a titled quantity with its data, the axis
//! ranges that frame the data, and the image that a drawn chart becomes.

use crate::calendar::Date;
use crate::order::Scale;
use crate::series::{bin_keys, is_binning, occurrences, Occurrences};
use crate::statistics::{Rate, SpamResult};
use vstd::prelude::*;

verus! {

/// Width of every chart in pixels.
pub const IMAGE_WIDTH: u32 = 600;

/// Height of every chart in pixels.
pub const IMAGE_HEIGHT: u32 = 400;

/// Bytes per pixel of the bitmap that a chart is drawn on: red, green, blue.
pub const PIXEL_SIZE: usize = 3;

/// A chart as an encoded image, with the text that stands in for it.
pub struct Image {
    pub png: Vec<u8>,
    pub alt: String,
}

/// Data to be charted, with the chart's title and the labels of its axes.
pub struct Quantity<D> {
    pub name: String,
    pub domain: String,
    pub range: String,
    pub data: D,
}

/// The colors that a slice of a pie chart can have.
#[derive(Clone, Copy, Debug, PartialEq, Eq, Structural)]
pub enum Color {
    Red,
    Orange,
    Yellow,
    Green,
    Blue,
    Indigo,
    Violet,
}

/// One slice of a pie chart: its share of the whole, with the text and the
/// color that the legend shows for it.
pub struct Slice {
    pub label: String,
    pub color: Color,
    pub ratio: Rate,
}

/// The smallest and the largest value along one axis.
#[derive(Clone, Copy, Debug)]
pub struct LinearRange<X> {
    pub min: X,
    pub max: X,
}

/// The bounding box of a set of points.
#[derive(Clone, Copy, Debug)]
pub struct CartesianRange<X, Y> {
    pub x: LinearRange<X>,
    pub y: LinearRange<Y>,
}

impl Scale for Rate {
    /// Ratios compare as fractions; a ratio of nothing out of nothing
    /// neither precedes nor follows any other.
    open spec fn lt(self, other: Self) -> bool {
        self.part * other.total < other.part * self.total
    }

    fn less(self, other: Self) -> (r: bool) {
        proof {
            assert(0 <= self.part * other.total <= usize::MAX * usize::MAX) by (nonlinear_arith)
                requires
                    0 <= self.part <= usize::MAX,
                    0 <= other.total <= usize::MAX,
            ;
            assert(0 <= other.part * self.total <= usize::MAX * usize::MAX) by (nonlinear_arith)
                requires
                    0 <= other.part <= usize::MAX,
                    0 <= self.total <= usize::MAX,
            ;
            assert(usize::MAX * usize::MAX <= u128::MAX) by (nonlinear_arith)
                requires
                    usize::MAX <= 0xffff_ffff_ffff_ffff,
            ;
        }
        (self.part as u128) * (other.total as u128) < (other.part as u128) * (self.total as u128)
    }

    proof fn lemma_irreflexive(a: Self) {
    }

    proof fn lemma_transitive(a: Self, b: Self, c: Self) {
        let (ap, at) = (a.part as int, a.total as int);
        let (bp, bt) = (b.part as int, b.total as int);
        let (cp, ct) = (c.part as int, c.total as int);
        assert(ap * ct < cp * at) by (nonlinear_arith)
            requires
                ap * bt < bp * at,
                bp * ct < cp * bt,
                0 <= ap,
                0 <= at,
                0 <= bp,
                0 <= bt,
                0 <= cp,
                0 <= ct,
        ;
    }
}

/// Whether `range` frames the points: along each axis its least value is
/// one that occurs and that no other precedes, and its greatest value is
/// one that occurs and that precedes no other.
pub open spec fn frames<X: Scale, Y: Scale>(points: Seq<(X, Y)>, range: CartesianRange<X, Y>) -> bool {
    &&& exists|i: int| 0 <= i < points.len() && (#[trigger] points[i]).0 == range.x.min
    &&& exists|i: int| 0 <= i < points.len() && (#[trigger] points[i]).0 == range.x.max
    &&& exists|i: int| 0 <= i < points.len() && (#[trigger] points[i]).1 == range.y.min
    &&& exists|i: int| 0 <= i < points.len() && (#[trigger] points[i]).1 == range.y.max
    &&& forall|i: int|
        0 <= i < points.len() ==> {
            &&& !(#[trigger] points[i]).0.lt(range.x.min)
            &&& !range.x.max.lt(points[i].0)
            &&& !points[i].1.lt(range.y.min)
            &&& !range.y.max.lt(points[i].1)
        }
}

/// The bounding box of the points, or `None` when there are none.
pub fn try_into_cartesian_range<X: Scale, Y: Scale>(points: &Vec<(X, Y)>) -> (r: Option<
    CartesianRange<X, Y>,
>)
    ensures
        r is None <==> points@.len() == 0,
        r matches Some(range) ==> frames(points@, range),
{
    if points.len() == 0 {
        return None;
    }
    let mut x_min: X = points[0].0;
    let mut x_max: X = points[0].0;
    let mut y_min: Y = points[0].1;
    let mut y_max: Y = points[0].1;
    proof {
        X::lemma_irreflexive(points@[0].0);
        Y::lemma_irreflexive(points@[0].1);
        assert(points@.take(1)[0] == points@[0]);
    }
    let mut n: usize = 1;
    while n < points.len()
        invariant
            1 <= n <= points.len(),
            frames(
                points@.take(n as int),
                CartesianRange {
                    x: LinearRange { min: x_min, max: x_max },
                    y: LinearRange { min: y_min, max: y_max },
                },
            ),
        decreases points.len() - n,
    {
        let x: X = points[n].0;
        let y: Y = points[n].1;
        let ghost seen = points@.take(n as int);
        let ghost now = points@.take(n + 1);
        let ghost before = CartesianRange {
            x: LinearRange { min: x_min, max: x_max },
            y: LinearRange { min: y_min, max: y_max },
        };
        if x.less(x_min) {
            x_min = x;
        }
        if x_max.less(x) {
            x_max = x;
        }
        if y.less(y_min) {
            y_min = y;
        }
        if y_max.less(y) {
            y_max = y;
        }
        proof {
            let after = CartesianRange {
                x: LinearRange { min: x_min, max: x_max },
                y: LinearRange { min: y_min, max: y_max },
            };
            X::lemma_irreflexive(x);
            Y::lemma_irreflexive(y);
            let a = choose|i: int| 0 <= i < seen.len() && (#[trigger] seen[i]).0 == before.x.min;
            let b = choose|i: int| 0 <= i < seen.len() && (#[trigger] seen[i]).0 == before.x.max;
            let c = choose|i: int| 0 <= i < seen.len() && (#[trigger] seen[i]).1 == before.y.min;
            let d = choose|i: int| 0 <= i < seen.len() && (#[trigger] seen[i]).1 == before.y.max;
            assert(now[a] == seen[a] && now[b] == seen[b] && now[c] == seen[c] && now[d] == seen[d]);
            assert(now[n as int] == (x, y));
            assert forall|i: int| 0 <= i < now.len() implies {
                &&& !(#[trigger] now[i]).0.lt(after.x.min)
                &&& !after.x.max.lt(now[i].0)
                &&& !now[i].1.lt(after.y.min)
                &&& !after.y.max.lt(now[i].1)
            } by {
                if i < n {
                    assert(now[i] == seen[i]);
                    if now[i].0.lt(after.x.min) {
                        X::lemma_transitive(now[i].0, after.x.min, before.x.min);
                    }
                    if after.x.max.lt(now[i].0) {
                        X::lemma_transitive(before.x.max, after.x.max, now[i].0);
                    }
                    if now[i].1.lt(after.y.min) {
                        Y::lemma_transitive(now[i].1, after.y.min, before.y.min);
                    }
                    if after.y.max.lt(now[i].1) {
                        Y::lemma_transitive(before.y.max, after.y.max, now[i].1);
                    }
                }
            }
        }
        n += 1;
    }
    proof {
        assert(points@.take(n as int) =~= points@);
    }
    Some(
        CartesianRange {
            x: LinearRange { min: x_min, max: x_max },
            y: LinearRange { min: y_min, max: y_max },
        },
    )
}

/// The size in bytes of the bitmap that a chart is drawn on.
pub fn buffer_size() -> (size: usize)
    ensures
        size == IMAGE_WIDTH * IMAGE_HEIGHT * PIXEL_SIZE,
        size == 720_000,
{
    let width: usize = 600;
    let height: usize = 400;
    width * height * PIXEL_SIZE
}

impl<D> Quantity<D> {
    /// The drawn chart as an image: the encoded picture, with the chart's
    /// title as the text that stands in for it.
    pub fn into_image(self, png: Vec<u8>) -> (image: Image)
        ensures
            image.png == png,
            image.alt == self.name,
    {
        Image { png, alt: self.name }
    }
}

impl Rate {
    /// Whether the ratio is zero: no part of a whole that is not empty.
    pub open spec fn is_zero(self) -> bool {
        self.part == 0 && self.total != 0
    }
}

/// The slices that a pie chart shows: those whose ratio is not zero, in
/// their order.
pub open spec fn shown_slices(slices: Seq<Slice>) -> Seq<Slice>
    decreases slices.len(),
{
    if slices.len() == 0 {
        Seq::empty()
    } else {
        let front = shown_slices(slices.drop_last());
        if slices.last().ratio.is_zero() {
            front
        } else {
            front.push(slices.last())
        }
    }
}

/// Leaves out the slices with a ratio of zero, from the chart and from its
/// legend alike.
pub fn visible_slices(slices: &Vec<Slice>) -> (shown: Vec<Slice>)
    ensures
        shown@ == shown_slices(slices@),
{
    let mut shown: Vec<Slice> = Vec::new();
    let mut n: usize = 0;
    while n < slices.len()
        invariant
            n <= slices.len(),
            shown@ == shown_slices(slices@.take(n as int)),
        decreases slices.len() - n,
    {
        proof {
            assert(slices@.take(n + 1).drop_last() =~= slices@.take(n as int));
        }
        let ratio: Rate = slices[n].ratio;
        if !(ratio.part == 0 && ratio.total != 0) {
            shown.push(Slice { label: slices[n].label.clone(), color: slices[n].color, ratio });
        }
        n += 1;
    }
    proof {
        assert(slices@.take(n as int) =~= slices@);
    }
    shown
}

/// The days of dated scores, in their order.
pub open spec fn score_days(scores: Seq<(Date, SpamResult)>) -> Seq<i32> {
    Seq::new(scores.len(), |i: int| scores[i].0.days)
}

/// The scores dated `day`, in their order.
pub open spec fn scores_on(scores: Seq<(Date, SpamResult)>, day: int) -> Seq<SpamResult>
    decreases scores.len(),
{
    if scores.len() == 0 {
        Seq::empty()
    } else {
        let front = scores_on(scores.drop_last(), day);
        if scores.last().0.days == day {
            front.push(scores.last().1)
        } else {
            front
        }
    }
}

/// The sizes of dated groups, each with its day.
pub open spec fn group_sizes(groups: Seq<(Date, Vec<SpamResult>)>) -> Seq<(i32, Occurrences)> {
    Seq::new(groups.len(), |i: int| (groups[i].0.days, groups[i].1@.len() as Occurrences))
}

/// There are as many scores for a day as the day occurs.
pub proof fn lemma_scores_on_len(scores: Seq<(Date, SpamResult)>, day: int)
    ensures
        scores_on(scores, day).len() == occurrences(score_days(scores), day),
    decreases scores.len(),
{
    if scores.len() > 0 {
        lemma_scores_on_len(scores.drop_last(), day);
        assert(score_days(scores).drop_last() =~= score_days(scores.drop_last()));
    }
}

/// The scores of one day, in their order.
fn scores_dated(scores: &Vec<(Date, SpamResult)>, day: i32) -> (found: Vec<SpamResult>)
    ensures
        found@ == scores_on(scores@, day as int),
{
    let mut found: Vec<SpamResult> = Vec::new();
    let mut n: usize = 0;
    while n < scores.len()
        invariant
            n <= scores.len(),
            found@ == scores_on(scores@.take(n as int), day as int),
        decreases scores.len() - n,
    {
        proof {
            assert(scores@.take(n + 1).drop_last() =~= scores@.take(n as int));
        }
        if scores[n].0.days == day {
            found.push(scores[n].1);
        }
        n += 1;
    }
    proof {
        assert(scores@.take(n as int) =~= scores@);
    }
    found
}

/// Groups dated scores for a box plot: one group for each distinct date, in
/// ascending date order, with all the scores of that date.
pub fn group_by_date(scores: &Vec<(Date, SpamResult)>) -> (groups: Vec<(Date, Vec<SpamResult>)>)
    ensures
        is_binning(score_days(scores@), group_sizes(groups@)),
        forall|i: int|
            0 <= i < groups@.len() ==> (#[trigger] groups@[i]).1@ == scores_on(
                scores@,
                groups@[i].0.days as int,
            ),
{
    let mut days: Vec<i32> = Vec::new();
    let mut n: usize = 0;
    while n < scores.len()
        invariant
            n <= scores.len(),
            days@.len() == n,
            forall|i: int| 0 <= i < n ==> days@[i] == scores@[i].0.days,
        decreases scores.len() - n,
    {
        days.push(scores[n].0.days);
        n += 1;
    }
    proof {
        assert(days@ =~= score_days(scores@));
    }
    let bins = bin_keys(&days);
    let mut groups: Vec<(Date, Vec<SpamResult>)> = Vec::new();
    let mut j: usize = 0;
    while j < bins.len()
        invariant
            j <= bins.len(),
            groups@.len() == j,
            days@ == score_days(scores@),
            is_binning(days@, bins@),
            forall|i: int|
                0 <= i < j ==> (#[trigger] groups@[i]).0.days == bins@[i].0 && groups@[i].1@
                    == scores_on(scores@, bins@[i].0 as int),
        decreases bins.len() - j,
    {
        let day: i32 = bins[j].0;
        let found = scores_dated(scores, day);
        groups.push((Date { days: day }, found));
        j += 1;
    }
    proof {
        assert forall|i: int| 0 <= i < groups@.len() implies group_sizes(groups@)[i] == bins@[i] by {
            lemma_scores_on_len(scores@, bins@[i].0 as int);
            assert(bins@[i].1 == occurrences(days@, bins@[i].0 as int));
        }
        assert(group_sizes(groups@) =~= bins@);
    }
    groups
}

} // verus!
