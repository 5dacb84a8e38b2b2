use crate::detector::accepts_points;
use crate::detector::answers_as;
use crate::detector::detect_stay_points;
use crate::detector::tests_every_box;
use crate::geometry::BoundingBox;
use crate::grouping::divide_id_records;
use crate::grouping::group_samples;
use crate::grouping::is_grouping;
use crate::grouping::lemma_grouping_is_unique;
use crate::record::samples;
use crate::record::stays;
use crate::record::Record;
use crate::record::Sample;
use crate::record::Stay;
use crate::record::Visit;
use crate::window::stay_points;
use vstd::prelude::*;

verus! {

/// The groups of the samples: their maximal runs of samples of one entity.
pub open spec fn groups_of(input: Seq<Sample>) -> Seq<Seq<Sample>> {
    choose|groups: Seq<Seq<Sample>>| is_grouping(input, groups)
}

/// The stays of the groups, those of each group in order and group after
/// group.
pub open spec fn stay_points_of_groups(
    groups: Seq<Seq<Sample>>,
    compact: spec_fn(BoundingBox) -> bool,
    min_duration: i64,
) -> Seq<Stay>
    decreases groups.len(),
{
    if groups.len() == 0 {
        Seq::empty()
    } else {
        stay_points_of_groups(groups.drop_last(), compact, min_duration) + stay_points(
            groups.last(),
            compact,
            min_duration,
        )
    }
}

/// The stays in the samples of several entities.
pub open spec fn all_stay_points(
    input: Seq<Sample>,
    compact: spec_fn(BoundingBox) -> bool,
    min_duration: i64,
) -> Seq<Stay> {
    stay_points_of_groups(groups_of(input), compact, min_duration)
}

/// Finds the stays in records of several entities: divides the records into
/// groups by entity and detects the stays of each group.
pub fn find_stay_points<F: Fn(&BoundingBox) -> bool>(
    data: &Vec<Record>,
    is_compact: &F,
    min_time: i64,
) -> (visits: Vec<Visit>)
    requires
        tests_every_box(*is_compact),
        accepts_points(*is_compact),
    ensures
        forall|compact: spec_fn(BoundingBox) -> bool| #[trigger]
            answers_as(*is_compact, compact) ==> stays(visits@) == all_stay_points(
                samples(data@),
                compact,
                min_time,
            ),
{
    let id_records = divide_id_records(data);
    let ghost groups = group_samples(id_records@);
    proof {
        lemma_grouping_is_unique(samples(data@), groups, groups_of(samples(data@)));
    }
    let mut visits: Vec<Visit> = Vec::new();
    let mut g: usize = 0;
    assert(groups.take(0) == Seq::<Seq<Sample>>::empty());
    assert(stays(visits@) == Seq::<Stay>::empty());
    while g < id_records.len()
        invariant
            g <= id_records.len(),
            groups == group_samples(id_records@),
            is_grouping(samples(data@), groups),
            tests_every_box(*is_compact),
            accepts_points(*is_compact),
            forall|compact: spec_fn(BoundingBox) -> bool| #[trigger]
                answers_as(*is_compact, compact) ==> stays(visits@) == stay_points_of_groups(
                    groups.take(g as int),
                    compact,
                    min_time,
                ),
        decreases id_records.len() - g,
    {
        let ghost so_far = stays(visits@);
        assert(groups[g as int].len() > 0);
        assert(groups[g as int] == samples(id_records@[g as int]@));
        let mut found = detect_stay_points(&id_records[g], is_compact, min_time);
        let ghost added = stays(found@);
        visits.append(&mut found);
        proof {
            assert(stays(visits@) == so_far + added);
            assert(groups.take(g + 1).drop_last() == groups.take(g as int));
            assert(groups.take(g + 1).last() == groups[g as int]);
        }
        g += 1;
    }
    assert(groups.take(g as int) == groups);
    visits
}

} // verus!
