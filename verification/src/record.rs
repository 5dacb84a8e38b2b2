use crate::geometry::Point;
use crate::median::Median;
use vstd::prelude::*;

verus! {

/// One timestamped position reading of one entity.
#[derive(Clone, Debug)]
pub struct Record {
    pub id: String,
    pub time: i64,
    pub point: Point,
}

/// What a `Record` says: whose position it is, when, and where.
pub struct Sample {
    pub id: Seq<char>,
    pub time: i64,
    pub point: Point,
}

impl View for Record {
    type V = Sample;

    open spec fn view(&self) -> Sample {
        Sample { id: self.id@, time: self.time, point: self.point }
    }
}

/// The place of a visit: the median of the window's positions on each axis.
#[derive(Clone, Copy, Debug, PartialEq, Eq, Structural)]
pub struct MedianPoint {
    pub x: Median,
    pub y: Median,
}

/// A stay: the entity, the times of the first and last sample of the window,
/// and the median position over the window.
#[derive(Clone, Debug)]
pub struct Visit {
    pub id: String,
    pub start_time: i64,
    pub end_time: i64,
    pub point: MedianPoint,
}

/// What a `Visit` says.
pub struct Stay {
    pub id: Seq<char>,
    pub start_time: i64,
    pub end_time: i64,
    pub point: MedianPoint,
}

impl View for Visit {
    type V = Stay;

    open spec fn view(&self) -> Stay {
        Stay {
            id: self.id@,
            start_time: self.start_time,
            end_time: self.end_time,
            point: self.point,
        }
    }
}

/// The samples that a run of records stands for.
pub open spec fn samples(records: Seq<Record>) -> Seq<Sample> {
    records.map_values(|r: Record| r@)
}

/// The stays that a run of visits stands for.
pub open spec fn stays(visits: Seq<Visit>) -> Seq<Stay> {
    visits.map_values(|v: Visit| v@)
}

impl Record {
    /// Returns a record that says the same as this one.
    pub fn duplicate(&self) -> (copy: Record)
        ensures
            copy@ == self@,
    {
        Record { id: self.id.clone(), time: self.time, point: self.point }
    }
}

/// Copies the records at positions `start..end`.
pub fn copy_range(records: &Vec<Record>, start: usize, end: usize) -> (run: Vec<Record>)
    requires
        start <= end <= records.len(),
    ensures
        samples(run@) == samples(records@).subrange(start as int, end as int),
{
    let mut run: Vec<Record> = Vec::new();
    let mut k: usize = start;
    while k < end
        invariant
            start <= k <= end <= records.len(),
            samples(run@) == samples(records@).subrange(start as int, k as int),
        decreases end - k,
    {
        let ghost before = run@;
        let copy = records[k].duplicate();
        run.push(copy);
        proof {
            assert(samples(run@) == samples(before).push(copy@));
            assert(samples(records@).subrange(start as int, k + 1) == samples(records@).subrange(
                start as int,
                k as int,
            ).push(records@[k as int]@));
        }
        k += 1;
    }
    run
}

} // verus!
