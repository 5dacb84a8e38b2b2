use crate::geometry::BoundingBox;
use crate::geometry::Point;
use crate::merge::merged;
use crate::record::Sample;
use crate::record::Stay;
use vstd::prelude::*;

verus! {

/// A run of consecutive samples of one group: the positions `start..end`.
pub struct Window {
    pub start: int,
    pub end: int,
}

/// The positions of the samples, in order.
pub open spec fn points_of(samples: Seq<Sample>) -> Seq<Point> {
    samples.map_values(|s: Sample| s.point)
}

/// The bounding box of the samples at positions `start..end`.
pub open spec fn window_box(samples: Seq<Sample>, start: int, end: int) -> BoundingBox {
    BoundingBox::of(points_of(samples.subrange(start, end)))
}

/// Whether the samples from position `first` to position `last` span at
/// least `min_duration`.
pub open spec fn lasts(samples: Seq<Sample>, first: int, last: int, min_duration: i64) -> bool {
    samples[last].time - samples[first].time >= min_duration
}

/// Where a window stops growing. The window `start..end` is taken as compact;
/// it grows by one sample at a time and stops in front of the first sample
/// that makes its box fail the test, or at the end of the samples.
pub open spec fn stretch(
    samples: Seq<Sample>,
    compact: spec_fn(BoundingBox) -> bool,
    start: int,
    end: int,
) -> int
    decreases samples.len() - end,
{
    if end >= samples.len() {
        samples.len() as int
    } else if !compact(window_box(samples, start, end + 1)) {
        end
    } else {
        stretch(samples, compact, start, end + 1)
    }
}

/// The end of the window that starts at `start`. The sample at `start`
/// always belongs to it.
pub open spec fn window_end(
    samples: Seq<Sample>,
    compact: spec_fn(BoundingBox) -> bool,
    start: int,
) -> int {
    stretch(samples, compact, start, start + 1)
}

/// A window never shrinks while it is stretched, and never leaves the samples.
pub proof fn lemma_stretch_bounds(
    samples: Seq<Sample>,
    compact: spec_fn(BoundingBox) -> bool,
    start: int,
    end: int,
)
    requires
        end <= samples.len(),
    ensures
        end <= stretch(samples, compact, start, end) <= samples.len(),
    decreases samples.len() - end,
{
    if end < samples.len() && compact(window_box(samples, start, end + 1)) {
        lemma_stretch_bounds(samples, compact, start, end + 1);
    }
}

/// The windows that count as stays, from position `start` on. The samples
/// are cut into windows one after the other, each starting where the one
/// before stopped; a window counts when it spans at least `min_duration`.
pub open spec fn stay_windows_from(
    samples: Seq<Sample>,
    compact: spec_fn(BoundingBox) -> bool,
    min_duration: i64,
    start: int,
) -> Seq<Window>
    decreases samples.len() - start,
    via stay_windows_from_terminates
{
    if 0 <= start < samples.len() {
        let end = window_end(samples, compact, start);
        let rest = stay_windows_from(samples, compact, min_duration, end);
        if lasts(samples, start, end - 1, min_duration) {
            seq![Window { start, end }] + rest
        } else {
            rest
        }
    } else {
        Seq::empty()
    }
}

#[via_fn]
proof fn stay_windows_from_terminates(
    samples: Seq<Sample>,
    compact: spec_fn(BoundingBox) -> bool,
    min_duration: i64,
    start: int,
) {
    if 0 <= start < samples.len() {
        lemma_stretch_bounds(samples, compact, start, start + 1);
    }
}

/// The stay of each window.
pub open spec fn stays_of(samples: Seq<Sample>, windows: Seq<Window>) -> Seq<Stay> {
    windows.map_values(|w: Window| merged(samples.subrange(w.start, w.end)))
}

/// The windows of one group that count as stays.
pub open spec fn stay_windows(
    samples: Seq<Sample>,
    compact: spec_fn(BoundingBox) -> bool,
    min_duration: i64,
) -> Seq<Window> {
    stay_windows_from(samples, compact, min_duration, 0)
}

/// The stays of one group, in the order of their windows.
pub open spec fn stay_points(
    samples: Seq<Sample>,
    compact: spec_fn(BoundingBox) -> bool,
    min_duration: i64,
) -> Seq<Stay> {
    stays_of(samples, stay_windows(samples, compact, min_duration))
}

/// The box of a window that has taken in one more sample is the box before,
/// grown by that sample; the box of a single sample is the box around it.
pub proof fn lemma_window_box_grows(samples: Seq<Sample>, start: int, end: int)
    requires
        0 <= start <= end < samples.len(),
    ensures
        end > start ==> window_box(samples, start, end + 1) == window_box(
            samples,
            start,
            end,
        ).extended(samples[end].point),
        end == start ==> window_box(samples, start, end + 1) == BoundingBox::around(
            samples[start].point,
        ),
        BoundingBox::around(samples[start].point).extended(samples[start].point)
            == BoundingBox::around(samples[start].point),
{
    let grown = points_of(samples.subrange(start, end + 1));
    if end > start {
        assert(grown.drop_last() == points_of(samples.subrange(start, end)));
    }
}

/// Whether the times of the samples never go back.
pub open spec fn chronological(samples: Seq<Sample>) -> bool {
    forall|i: int, j: int| 0 <= i <= j < samples.len() ==> samples[i].time <= samples[j].time
}

/// Whether a predicate on boxes holds of every box around a single position.
pub open spec fn holds_of_points(compact: spec_fn(BoundingBox) -> bool) -> bool {
    forall|p: Point| #[trigger] compact(BoundingBox::around(p))
}

/// A compact window that is stretched stays compact, and what stops it is
/// the end of the samples or a sample that breaks it.
pub proof fn lemma_stretch_is_compact(
    samples: Seq<Sample>,
    compact: spec_fn(BoundingBox) -> bool,
    start: int,
    end: int,
)
    requires
        0 <= start < end <= samples.len(),
        compact(window_box(samples, start, end)),
    ensures
        compact(window_box(samples, start, stretch(samples, compact, start, end))),
        stretch(samples, compact, start, end) < samples.len() ==> !compact(
            window_box(samples, start, stretch(samples, compact, start, end) + 1),
        ),
    decreases samples.len() - end,
{
    if end < samples.len() && compact(window_box(samples, start, end + 1)) {
        lemma_stretch_is_compact(samples, compact, start, end + 1);
    }
}

/// Every window that counts as a stay lies within the samples behind `start`,
/// is the whole window that starts at its first sample, and spans at least
/// `min_duration`. Each next one starts at or behind the end of the one before.
pub proof fn lemma_stay_windows_from(
    samples: Seq<Sample>,
    compact: spec_fn(BoundingBox) -> bool,
    min_duration: i64,
    start: int,
)
    requires
        0 <= start,
    ensures
        forall|k: int|
            0 <= k < stay_windows_from(samples, compact, min_duration, start).len() ==> {
                let w = #[trigger] stay_windows_from(samples, compact, min_duration, start)[k];
                &&& start <= w.start < w.end <= samples.len()
                &&& w.end == window_end(samples, compact, w.start)
                &&& lasts(samples, w.start, w.end - 1, min_duration)
            },
        forall|k: int|
            0 <= k && k + 1 < stay_windows_from(samples, compact, min_duration, start).len()
                ==> (#[trigger] stay_windows_from(samples, compact, min_duration, start)[k]).end
                <= stay_windows_from(samples, compact, min_duration, start)[k + 1].start,
    decreases samples.len() - start,
{
    if start < samples.len() {
        let end = window_end(samples, compact, start);
        lemma_stretch_bounds(samples, compact, start, start + 1);
        lemma_stay_windows_from(samples, compact, min_duration, end);
        let all = stay_windows_from(samples, compact, min_duration, start);
        let rest = stay_windows_from(samples, compact, min_duration, end);
        if lasts(samples, start, end - 1, min_duration) {
            assert(all == seq![Window { start, end }] + rest);
            assert forall|k: int| 0 < k < all.len() implies all[k] == rest[k - 1] by {}
            assert forall|k: int| 0 <= k && k + 1 < all.len() implies (#[trigger] all[k]).end
                <= all[k + 1].start by {
                if k > 0 {
                    assert(rest[k - 1].end <= rest[k].start);
                } else {
                    assert(all[1] == rest[0]);
                }
            }
        }
    }
}

/// Every stay comes from a window whose bounding box passes the test and
/// whose first and last sample are at least `min_duration` apart. The window
/// is as long as it can be: it ends with the samples, or the next sample
/// would break it.
pub proof fn lemma_stays_are_compact_and_long(
    samples: Seq<Sample>,
    compact: spec_fn(BoundingBox) -> bool,
    min_duration: i64,
    k: int,
)
    requires
        holds_of_points(compact),
        0 <= k < stay_windows(samples, compact, min_duration).len(),
    ensures
        ({
            let w = stay_windows(samples, compact, min_duration)[k];
            let stay = stay_points(samples, compact, min_duration)[k];
            &&& 0 <= w.start < w.end <= samples.len()
            &&& compact(window_box(samples, w.start, w.end))
            &&& w.end < samples.len() ==> !compact(window_box(samples, w.start, w.end + 1))
            &&& stay == merged(samples.subrange(w.start, w.end))
            &&& stay.id == samples[w.start].id
            &&& stay.start_time == samples[w.start].time
            &&& stay.end_time == samples[w.end - 1].time
            &&& stay.end_time - stay.start_time >= min_duration
        }),
{
    lemma_stay_windows_from(samples, compact, min_duration, 0);
    let w = stay_windows(samples, compact, min_duration)[k];
    lemma_window_box_grows(samples, w.start, w.start);
    assert(compact(BoundingBox::around(samples[w.start].point)));
    lemma_stretch_is_compact(samples, compact, w.start, w.start + 1);
}

/// Two stays that follow each other come from windows that do not overlap,
/// and where the times of the samples never go back, the later stay starts
/// no earlier than the earlier one ends.
pub proof fn lemma_stays_are_disjoint(
    samples: Seq<Sample>,
    compact: spec_fn(BoundingBox) -> bool,
    min_duration: i64,
    k: int,
)
    requires
        0 <= k,
        k + 1 < stay_windows(samples, compact, min_duration).len(),
    ensures
        stay_windows(samples, compact, min_duration)[k].end <= stay_windows(
            samples,
            compact,
            min_duration,
        )[k + 1].start,
        chronological(samples) ==> stay_points(samples, compact, min_duration)[k].end_time
            <= stay_points(samples, compact, min_duration)[k + 1].start_time,
{
    lemma_stay_windows_from(samples, compact, min_duration, 0);
    let ws = stay_windows(samples, compact, min_duration);
    assert(ws[k].end <= ws[k + 1].start);
    assert(0 <= ws[k].start < ws[k].end);
    assert(ws[k + 1].start < ws[k + 1].end <= samples.len());
}

} // verus!
