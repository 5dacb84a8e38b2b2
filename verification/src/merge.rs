use crate::geometry::Point;
use crate::median::lemma_median_of_equal_values;
use crate::median::median;
use crate::median::median_of;
use crate::record::samples;
use crate::record::MedianPoint;
use crate::record::Record;
use crate::record::Sample;
use crate::record::Stay;
use crate::record::Visit;
use vstd::prelude::*;

verus! {

/// The first coordinates of the samples, in order.
pub open spec fn xs_of(samples: Seq<Sample>) -> Seq<i64> {
    samples.map_values(|s: Sample| s.point.x)
}

/// The second coordinates of the samples, in order.
pub open spec fn ys_of(samples: Seq<Sample>) -> Seq<i64> {
    samples.map_values(|s: Sample| s.point.y)
}

/// The stay that a non-empty window of samples collapses to: entity and start
/// from its first sample, end from its last, place from the medians over all.
pub open spec fn merged(window: Seq<Sample>) -> Stay {
    Stay {
        id: window.first().id,
        start_time: window.first().time,
        end_time: window.last().time,
        point: MedianPoint { x: median_of(xs_of(window)), y: median_of(ys_of(window)) },
    }
}

/// A window in which every sample is at the same position collapses to a stay
/// at exactly that position, for an odd and for an even number of samples.
pub proof fn lemma_merge_of_one_position(window: Seq<Sample>, p: Point)
    requires
        window.len() > 0,
        forall|i: int| 0 <= i < window.len() ==> window[i].point == p,
    ensures
        merged(window).point.x.pins(p.x),
        merged(window).point.y.pins(p.y),
{
    lemma_median_of_equal_values(xs_of(window), p.x);
    lemma_median_of_equal_values(ys_of(window), p.y);
}

/// Collapses a non-empty window of records into one visit.
pub fn merge_records_to_visit(records: Vec<Record>) -> (visit: Visit)
    requires
        records.len() > 0,
    ensures
        visit@ == merged(samples(records@)),
{
    let mut xs: Vec<i64> = Vec::new();
    let mut ys: Vec<i64> = Vec::new();
    let mut k: usize = 0;
    while k < records.len()
        invariant
            k <= records.len(),
            xs@ == xs_of(samples(records@)).take(k as int),
            ys@ == ys_of(samples(records@)).take(k as int),
        decreases records.len() - k,
    {
        xs.push(records[k].point.x);
        ys.push(records[k].point.y);
        k += 1;
    }
    assert(xs@ == xs_of(samples(records@)));
    assert(ys@ == ys_of(samples(records@)));
    let last = records.len() - 1;
    Visit {
        id: records[0].id.clone(),
        start_time: records[0].time,
        end_time: records[last].time,
        point: MedianPoint { x: median(&xs), y: median(&ys) },
    }
}

} // verus!
