use crate::geometry::BoundingBox;
use crate::geometry::Point;
use crate::merge::merge_records_to_visit;
use crate::merge::merged;
use crate::record::copy_range;
use crate::record::samples;
use crate::record::stays;
use crate::record::Record;
use crate::record::Sample;
use crate::record::Stay;
use crate::record::Visit;
use crate::window::lasts;
use crate::window::lemma_window_box_grows;
use crate::window::stay_points;
use crate::window::stay_windows_from;
use crate::window::stays_of;
use crate::window::stretch;
use crate::window::window_box;
use crate::window::window_end;
use crate::window::Window;
use vstd::prelude::*;

verus! {

/// The executable test `is_compact` can be put to every box.
pub open spec fn tests_every_box<F: Fn(&BoundingBox) -> bool>(is_compact: F) -> bool {
    forall|b: BoundingBox| #[trigger] is_compact.requires((&b,))
}

/// The executable test `is_compact` never rejects a box that holds a single
/// position. Every test of the form "the extent is below a positive bound"
/// is of this kind.
pub open spec fn accepts_points<F: Fn(&BoundingBox) -> bool>(is_compact: F) -> bool {
    forall|p: Point, answer: bool| #[trigger]
        is_compact.ensures((&BoundingBox::around(p),), answer) ==> answer
}

/// The executable test `is_compact` answers as the predicate `compact` says.
pub open spec fn answers_as<F: Fn(&BoundingBox) -> bool>(
    is_compact: F,
    compact: spec_fn(BoundingBox) -> bool,
) -> bool {
    forall|b: BoundingBox, answer: bool| #[trigger]
        is_compact.ensures((&b,), answer) ==> answer == compact(b)
}

/// What holds of a scan that has closed the windows before position `start`,
/// has found the samples at `start..next` to form a compact window, and has
/// collected `so_far`.
pub open spec fn scan_holds(
    samples: Seq<Sample>,
    compact: spec_fn(BoundingBox) -> bool,
    min_duration: i64,
    start: int,
    next: int,
    so_far: Seq<Stay>,
) -> bool {
    if next < samples.len() {
        &&& so_far + stays_of(samples, stay_windows_from(samples, compact, min_duration, start))
            == stay_points(samples, compact, min_duration)
        &&& window_end(samples, compact, start) == stretch(
            samples,
            compact,
            start,
            if next > start {
                next
            } else {
                start + 1
            },
        )
    } else {
        so_far == stay_points(samples, compact, min_duration)
    }
}

/// What a scan has collected after the window `start..end` was closed.
pub open spec fn with_window(
    samples: Seq<Sample>,
    min_duration: i64,
    start: int,
    end: int,
    so_far: Seq<Stay>,
) -> Seq<Stay> {
    if lasts(samples, start, end - 1, min_duration) {
        so_far.push(merged(samples.subrange(start, end)))
    } else {
        so_far
    }
}

/// A scan goes on when the sample at `next` leaves the window compact. At the
/// last sample the window is closed.
pub proof fn lemma_scan_absorbs(
    samples: Seq<Sample>,
    compact: spec_fn(BoundingBox) -> bool,
    min_duration: i64,
    start: int,
    next: int,
    so_far: Seq<Stay>,
)
    requires
        0 <= start <= next < samples.len(),
        scan_holds(samples, compact, min_duration, start, next, so_far),
        compact(window_box(samples, start, next + 1)),
    ensures
        next + 1 < samples.len() ==> scan_holds(
            samples,
            compact,
            min_duration,
            start,
            next + 1,
            so_far,
        ),
        next + 1 == samples.len() ==> scan_holds(
            samples,
            compact,
            min_duration,
            start,
            next + 1,
            with_window(samples, min_duration, start, next + 1, so_far),
        ),
{
    assert(window_end(samples, compact, start) == stretch(samples, compact, start, next + 1));
    if next + 1 == samples.len() {
        let n = samples.len() as int;
        assert(stretch(samples, compact, start, n) == n);
        assert(stay_windows_from(samples, compact, min_duration, n) == Seq::<Window>::empty());
        let rest = stay_windows_from(samples, compact, min_duration, start);
        if lasts(samples, start, n - 1, min_duration) {
            assert(rest == seq![Window { start, end: n }]);
            assert(stays_of(samples, rest) == seq![merged(samples.subrange(start, n))]);
            assert(so_far + stays_of(samples, rest) == so_far.push(
                merged(samples.subrange(start, n)),
            ));
        } else {
            assert(stays_of(samples, rest) == Seq::<Stay>::empty());
            assert(so_far + stays_of(samples, rest) == so_far);
        }
    }
}

/// A scan closes its window in front of the sample at `next` when that sample
/// breaks it, and opens the next window there.
pub proof fn lemma_scan_breaks(
    samples: Seq<Sample>,
    compact: spec_fn(BoundingBox) -> bool,
    min_duration: i64,
    start: int,
    next: int,
    so_far: Seq<Stay>,
)
    requires
        0 <= start < next < samples.len(),
        scan_holds(samples, compact, min_duration, start, next, so_far),
        !compact(window_box(samples, start, next + 1)),
    ensures
        scan_holds(
            samples,
            compact,
            min_duration,
            next,
            next,
            with_window(samples, min_duration, start, next, so_far),
        ),
{
    assert(window_end(samples, compact, start) == next);
    let rest = stay_windows_from(samples, compact, min_duration, start);
    let later = stay_windows_from(samples, compact, min_duration, next);
    if lasts(samples, start, next - 1, min_duration) {
        assert(rest == seq![Window { start, end: next }] + later);
        assert(stays_of(samples, rest) == seq![merged(samples.subrange(start, next))] + stays_of(
            samples,
            later,
        ));
        assert(so_far + stays_of(samples, rest) == so_far.push(
            merged(samples.subrange(start, next)),
        ) + stays_of(samples, later));
    }
}

/// Whether the time from `first` to `last` is at least `min_duration`.
pub fn spans(first: i64, last: i64, min_duration: i64) -> (long_enough: bool)
    ensures
        long_enough == (last - first >= min_duration),
{
    last as i128 - first as i128 >= min_duration as i128
}

/// The state of a scan over the samples of one group: the window that is
/// open, and the sample that is looked at next.
///
/// The window holds the samples at `start..next` and `bbox` is their
/// bounding box; a window that has just been opened holds no sample yet but
/// the one at `start`, which is looked at first.
#[derive(Clone, Copy, Debug, PartialEq, Eq, Structural)]
pub struct Scan {
    pub start: usize,
    pub next: usize,
    pub bbox: BoundingBox,
}

/// What a visit that may have been found stands for.
pub open spec fn found(visit: Option<Visit>) -> Option<Stay> {
    match visit {
        Some(v) => Some(v@),
        None => None,
    }
}

impl Scan {
    /// Whether the state fits the samples: the window lies within them and
    /// the box is the box of the window.
    pub open spec fn fits(self, samples: Seq<Sample>) -> bool {
        &&& self.start <= self.next <= samples.len()
        &&& self.start < samples.len()
        &&& self.next > self.start ==> self.bbox == window_box(
            samples,
            self.start as int,
            self.next as int,
        )
        &&& self.next == self.start ==> self.bbox == BoundingBox::around(
            samples[self.start as int].point,
        )
    }

    /// The state after the box with the next sample was found compact or not.
    /// A sample that leaves the window compact joins it. A sample that
    /// breaks the window closes it and opens the next window, of which it
    /// is the first sample; it is looked at once more there.
    pub open spec fn after(self, samples: Seq<Sample>, compact: bool) -> Scan {
        if compact {
            Scan {
                start: self.start,
                next: (self.next + 1) as usize,
                bbox: window_box(samples, self.start as int, self.next + 1),
            }
        } else {
            Scan {
                start: self.next,
                next: self.next,
                bbox: BoundingBox::around(samples[self.next as int].point),
            }
        }
    }

    /// The stay that the scan finds when the box with the next sample was
    /// found compact or not. A window is closed by the sample that breaks
    /// it, and by the end of the samples; it is a stay if it spans at least
    /// `min_duration`.
    pub open spec fn finds(self, samples: Seq<Sample>, compact: bool, min_duration: i64) -> Option<
        Stay,
    > {
        if compact {
            if self.next + 1 == samples.len() && lasts(
                samples,
                self.start as int,
                self.next as int,
                min_duration,
            ) {
                Some(merged(samples.subrange(self.start as int, self.next + 1)))
            } else {
                None
            }
        } else {
            if lasts(samples, self.start as int, self.next - 1, min_duration) {
                Some(merged(samples.subrange(self.start as int, self.next as int)))
            } else {
                None
            }
        }
    }

    /// Starts a scan at the first record.
    pub fn begin(records: &Vec<Record>) -> (scan: Scan)
        requires
            records.len() > 0,
        ensures
            scan.fits(samples(records@)),
            scan.start == 0,
            scan.next == 0,
    {
        Scan { start: 0, next: 0, bbox: BoundingBox::from_point(records[0].point) }
    }

    /// Whether every record has been looked at.
    pub fn finished(&self, records: &Vec<Record>) -> (done: bool)
        ensures
            done == (self.next >= records.len()),
    {
        self.next >= records.len()
    }

    /// The box that has to be tested next: that of the open window together
    /// with the next record.
    pub fn candidate(&self, records: &Vec<Record>) -> (bbox: BoundingBox)
        requires
            self.fits(samples(records@)),
            self.next < records.len(),
        ensures
            bbox == window_box(samples(records@), self.start as int, self.next + 1),
    {
        let mut bbox = self.bbox;
        bbox.absorb(records[self.next].point);
        proof {
            lemma_window_box_grows(samples(records@), self.start as int, self.next as int);
        }
        bbox
    }

    /// Takes the answer of the test on the candidate box and moves on.
    /// Returns the visit of the window that the answer closed, if it closed
    /// one that spans at least `min_time`. A window of a single record
    /// cannot be broken.
    pub fn advance(&mut self, records: &Vec<Record>, compact: bool, min_time: i64) -> (visit:
        Option<Visit>)
        requires
            old(self).fits(samples(records@)),
            old(self).next < records.len(),
            !compact ==> old(self).next > old(self).start,
        ensures
            *final(self) == old(self).after(samples(records@), compact),
            found(visit) == old(self).finds(samples(records@), compact, min_time),
            final(self).fits(samples(records@)),
    {
        let i = self.start;
        let k = self.next;
        if compact {
            self.bbox = self.candidate(records);
            self.next = k + 1;
            if k + 1 == records.len() && spans(records[i].time, records[k].time, min_time) {
                Some(merge_records_to_visit(copy_range(records, i, k + 1)))
            } else {
                None
            }
        } else {
            self.start = k;
            self.bbox = BoundingBox::from_point(records[k].point);
            if spans(records[i].time, records[k - 1].time, min_time) {
                Some(merge_records_to_visit(copy_range(records, i, k)))
            } else {
                None
            }
        }
    }
}

/// Detects the stays in the records of one group.
///
/// The records are scanned once, in order. A window grows record by record
/// for as long as `is_compact` accepts its bounding box. The record that
/// breaks it closes the window and opens the next one. A closed window, and
/// the window open at the end, becomes a visit if its first and last record
/// are at least `min_time` apart.
pub fn detect_stay_points<F: Fn(&BoundingBox) -> bool>(
    records: &Vec<Record>,
    is_compact: &F,
    min_time: i64,
) -> (visits: Vec<Visit>)
    requires
        records.len() > 0,
        tests_every_box(*is_compact),
        accepts_points(*is_compact),
    ensures
        forall|compact: spec_fn(BoundingBox) -> bool| #[trigger]
            answers_as(*is_compact, compact) ==> stays(visits@) == stay_points(
                samples(records@),
                compact,
                min_time,
            ),
{
    let ghost all = samples(records@);
    let mut visits: Vec<Visit> = Vec::new();
    let mut scan = Scan::begin(records);
    proof {
        assert forall|compact: spec_fn(BoundingBox) -> bool| #[trigger]
            answers_as(*is_compact, compact) implies scan_holds(
            all,
            compact,
            min_time,
            0,
            0,
            stays(visits@),
        ) by {
            assert(stays(visits@) + stay_points(all, compact, min_time) == stay_points(
                all,
                compact,
                min_time,
            ));
        }
    }
    while !scan.finished(records)
        invariant
            all == samples(records@),
            tests_every_box(*is_compact),
            accepts_points(*is_compact),
            scan.fits(all),
            forall|compact: spec_fn(BoundingBox) -> bool| #[trigger]
                answers_as(*is_compact, compact) ==> scan_holds(
                    all,
                    compact,
                    min_time,
                    scan.start as int,
                    scan.next as int,
                    stays(visits@),
                ),
        decreases records.len() - scan.next, records.len() - scan.start,
    {
        let ghost before = scan;
        let ghost so_far = stays(visits@);
        let candidate = scan.candidate(records);
        let compact = is_compact(&candidate);
        match scan.advance(records, compact, min_time) {
            Some(visit) => {
                visits.push(visit);
                assert(stays(visits@) == so_far.push(visit@));
            },
            None => {},
        }
        proof {
            assert forall|holds: spec_fn(BoundingBox) -> bool| #[trigger]
                answers_as(*is_compact, holds) implies scan_holds(
                all,
                holds,
                min_time,
                scan.start as int,
                scan.next as int,
                stays(visits@),
            ) by {
                assert(holds(candidate) == compact);
                if compact {
                    lemma_scan_absorbs(
                        all,
                        holds,
                        min_time,
                        before.start as int,
                        before.next as int,
                        so_far,
                    );
                } else {
                    lemma_scan_breaks(
                        all,
                        holds,
                        min_time,
                        before.start as int,
                        before.next as int,
                        so_far,
                    );
                }
            }
        }
    }
    visits
}

} // verus!
