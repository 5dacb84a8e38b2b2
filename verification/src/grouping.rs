use crate::record::copy_range;
use crate::record::samples;
use crate::record::Record;
use crate::record::Sample;
use vstd::prelude::*;

verus! {

/// The samples of each group of records.
pub open spec fn group_samples(groups: Seq<Vec<Record>>) -> Seq<Seq<Sample>> {
    groups.map_values(|g: Vec<Record>| samples(g@))
}

/// Whether all samples of a run belong to one entity.
pub open spec fn of_one_entity(run: Seq<Sample>) -> bool {
    forall|i: int| 0 <= i < run.len() ==> (#[trigger] run[i]).id == run[0].id
}

/// Whether `groups` cuts `input` into its maximal runs of samples of one
/// entity: put end to end the groups give the input back, no group is empty,
/// each holds one entity only, and a group and the next hold different ones.
pub open spec fn is_grouping(input: Seq<Sample>, groups: Seq<Seq<Sample>>) -> bool {
    &&& groups.flatten() == input
    &&& forall|g: int| 0 <= g < groups.len() ==> (#[trigger] groups[g]).len() > 0
    &&& forall|g: int| 0 <= g < groups.len() ==> of_one_entity(#[trigger] groups[g])
    &&& forall|g: int|
        0 <= g && g + 1 < groups.len() ==> (#[trigger] groups[g]).last().id != groups[g
            + 1].first().id
}

/// The number of samples in all groups together.
pub open spec fn total_len(groups: Seq<Seq<Sample>>) -> nat
    decreases groups.len(),
{
    if groups.len() == 0 {
        0
    } else {
        total_len(groups.drop_last()) + groups.last().len()
    }
}

/// Groups put end to end are as long as the groups together.
pub proof fn lemma_flatten_len(groups: Seq<Seq<Sample>>)
    ensures
        groups.flatten().len() == total_len(groups),
    decreases groups.len(),
{
    if groups.len() > 0 {
        lemma_flatten_len(groups.drop_last());
        groups.drop_last().lemma_flatten_push(groups.last());
        assert(groups.drop_last().push(groups.last()) == groups);
    }
}

/// A grouping loses and adds nothing: its groups hold as many samples as the
/// input, and put end to end they are the input.
pub proof fn lemma_grouping_partitions(input: Seq<Sample>, groups: Seq<Seq<Sample>>)
    requires
        is_grouping(input, groups),
    ensures
        total_len(groups) == input.len(),
        groups.flatten() == input,
{
    lemma_flatten_len(groups);
}

/// What is left of a grouping behind its first group groups what is left of
/// the input behind that group.
pub proof fn lemma_grouping_rest(input: Seq<Sample>, groups: Seq<Seq<Sample>>)
    requires
        is_grouping(input, groups),
        groups.len() > 0,
    ensures
        groups[0].len() <= input.len(),
        groups[0] == input.take(groups[0].len() as int),
        is_grouping(input.skip(groups[0].len() as int), groups.drop_first()),
{
    let first = groups[0];
    let rest = groups.drop_first();
    assert(groups.flatten() == first + rest.flatten());
    assert(input.take(first.len() as int) == first);
    assert(input.skip(first.len() as int) == rest.flatten());
    assert forall|g: int| 0 <= g < rest.len() implies (#[trigger] rest[g]).len() > 0
        && of_one_entity(rest[g]) by {
        assert(rest[g] == groups[g + 1]);
    }
    assert forall|g: int| 0 <= g && g + 1 < rest.len() implies (#[trigger] rest[g]).last().id
        != rest[g + 1].first().id by {
        assert(rest[g] == groups[g + 1]);
        assert(rest[g + 1] == groups[g + 2]);
    }
}

/// The first group of a grouping is no longer than the first group of
/// another grouping of the same input.
proof fn lemma_first_group_is_no_longer(
    input: Seq<Sample>,
    a: Seq<Seq<Sample>>,
    b: Seq<Seq<Sample>>,
)
    requires
        is_grouping(input, a),
        is_grouping(input, b),
        a.len() > 0,
        b.len() > 0,
    ensures
        a[0].len() <= b[0].len(),
{
    lemma_grouping_rest(input, a);
    lemma_grouping_rest(input, b);
    let cut = b[0].len() as int;
    if a[0].len() > cut {
        // the sample behind b's first group lies in a's first group, so it
        // belongs to the entity of the sample before it
        let rest = b.drop_first();
        assert(input.skip(cut).len() > 0);
        assert(rest.len() > 0) by {
            if rest.len() == 0 {
                assert(rest.flatten() == Seq::<Sample>::empty());
            }
        }
        assert(rest[0] == b[1]);
        lemma_grouping_rest(input.skip(cut), rest);
        assert(b[1].first() == input[cut]);
        assert(b[0].last() == input[cut - 1]);
        assert(a[0][cut] == input[cut]);
        assert(a[0][cut - 1] == input[cut - 1]);
    }
}

/// An input has one grouping only.
pub proof fn lemma_grouping_is_unique(
    input: Seq<Sample>,
    a: Seq<Seq<Sample>>,
    b: Seq<Seq<Sample>>,
)
    requires
        is_grouping(input, a),
        is_grouping(input, b),
    ensures
        a == b,
    decreases a.len(),
{
    if a.len() == 0 || b.len() == 0 {
        if a.len() > 0 {
            lemma_grouping_rest(input, a);
        }
        if b.len() > 0 {
            lemma_grouping_rest(input, b);
        }
        assert(a.len() == 0 && b.len() == 0) by {
            if a.len() == 0 {
                assert(a.flatten() == Seq::<Sample>::empty());
            }
            if b.len() == 0 {
                assert(b.flatten() == Seq::<Sample>::empty());
            }
        }
        assert(a == b);
    } else {
        lemma_first_group_is_no_longer(input, a, b);
        lemma_first_group_is_no_longer(input, b, a);
        lemma_grouping_rest(input, a);
        lemma_grouping_rest(input, b);
        lemma_grouping_is_unique(input.skip(a[0].len() as int), a.drop_first(), b.drop_first());
        assert(a == seq![a[0]] + a.drop_first());
        assert(b == seq![b[0]] + b.drop_first());
    }
}

/// A run of samples of one entity, put behind the groups of what lies in
/// front of it, makes the groups of all up to its end, if the last group in
/// front holds another entity.
pub proof fn lemma_group_closes(
    input: Seq<Sample>,
    groups: Seq<Seq<Sample>>,
    start: int,
    end: int,
)
    requires
        0 <= start < end <= input.len(),
        is_grouping(input.subrange(0, start), groups),
        of_one_entity(input.subrange(start, end)),
        groups.len() > 0 ==> groups.last().last().id != input[start].id,
    ensures
        is_grouping(input.subrange(0, end), groups.push(input.subrange(start, end))),
{
    let closed = input.subrange(start, end);
    let now = groups.push(closed);
    groups.lemma_flatten_push(closed);
    assert(input.subrange(0, start) + closed == input.subrange(0, end));
    assert forall|g: int| 0 <= g < now.len() implies (#[trigger] now[g]).len() > 0 && of_one_entity(
        now[g],
    ) by {
        if g < groups.len() {
            assert(now[g] == groups[g]);
        }
    }
    assert forall|g: int| 0 <= g && g + 1 < now.len() implies (#[trigger] now[g]).last().id
        != now[g + 1].first().id by {
        assert(now[g] == groups[g]);
        if g + 1 < groups.len() {
            assert(now[g + 1] == groups[g + 1]);
        } else {
            assert(closed.first() == input[start]);
        }
    }
}

/// Divides records into groups by entity: each group is a maximal run of
/// consecutive records with the same id. No records give no groups.
pub fn divide_id_records(data: &Vec<Record>) -> (id_records: Vec<Vec<Record>>)
    ensures
        is_grouping(samples(data@), group_samples(id_records@)),
{
    let mut id_records: Vec<Vec<Record>> = Vec::new();
    let n = data.len();
    let ghost all = samples(data@);
    if n == 0 {
        assert(group_samples(id_records@).flatten() == all);
        return id_records;
    }
    let mut i: usize = 0;
    let mut j: usize = 0;
    assert(group_samples(id_records@).flatten() == all.subrange(0, 0));
    while j < n
        invariant
            n == data.len(),
            all == samples(data@),
            i <= j <= n,
            i < n,
            forall|t: int| i <= t < j ==> (#[trigger] all[t]).id == all[i as int].id,
            is_grouping(all.subrange(0, i as int), group_samples(id_records@)),
            id_records.len() > 0 ==> group_samples(id_records@).last().last().id
                != all[i as int].id,
        decreases n - j,
    {
        if data[i].id != data[j].id {
            let ghost before = group_samples(id_records@);
            let run = copy_range(data, i, j);
            id_records.push(run);
            proof {
                assert(group_samples(id_records@) == before.push(all.subrange(i as int, j as int)));
                lemma_group_closes(all, before, i as int, j as int);
            }
            i = j;
        }
        j += 1;
    }
    let ghost before = group_samples(id_records@);
    let run = copy_range(data, i, n);
    id_records.push(run);
    proof {
        assert(group_samples(id_records@) == before.push(all.subrange(i as int, n as int)));
        lemma_group_closes(all, before, i as int, n as int);
        assert(all.subrange(0, n as int) == all);
    }
    id_records
}

} // verus!
