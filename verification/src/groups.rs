//! Processes gathered under their names, and the choice of those to show.

use crate::snapshot::{saturated, ProcessGroup};
use vstd::prelude::*;

verus! {

/// One process that counts: its name and the bytes it keeps in memory.
#[derive(Debug)]
pub struct ProcessReading {
    pub name: String,
    pub rss: u64,
}

/// A `ProcessReading` as a mathematical value.
pub struct Reading {
    pub name: Seq<char>,
    pub rss: u64,
}

/// A `ProcessGroup` as a mathematical value.
pub struct Group {
    pub name: Seq<char>,
    pub count: nat,
    pub rss: u64,
}

impl View for ProcessReading {
    type V = Reading;

    open spec fn view(&self) -> Reading {
        Reading { name: self.name@, rss: self.rss }
    }
}

impl View for ProcessGroup {
    type V = Group;

    open spec fn view(&self) -> Group {
        Group { name: self.name@, count: self.count as nat, rss: self.rss }
    }
}

/// The mathematical values of some readings.
pub open spec fn reading_views(readings: Seq<ProcessReading>) -> Seq<Reading> {
    readings.map_values(|reading: ProcessReading| reading@)
}

/// The mathematical values of some groups.
pub open spec fn group_views(groups: Seq<ProcessGroup>) -> Seq<Group> {
    groups.map_values(|group: ProcessGroup| group@)
}

/// What was learnt of one process: the bytes it keeps in memory and its name,
/// each where it could be had.
#[derive(Debug)]
pub struct ProcessSample {
    pub rss: Option<u64>,
    pub name: Option<String>,
}

/// The reading that a process gives: none where its bytes or its name are not
/// known, or it keeps nothing in memory.
pub open spec fn sample_reading(sample: ProcessSample) -> Option<Reading> {
    match (sample.rss, sample.name) {
        (Some(rss), Some(name)) => if rss > 0 {
            Some(Reading { name: name@, rss })
        } else {
            None
        },
        _ => None,
    }
}

/// The readings that there are, in their order.
pub open spec fn present(readings: Seq<Option<Reading>>) -> Seq<Reading>
    decreases readings.len(),
{
    if readings.len() == 0 {
        Seq::empty()
    } else {
        match readings.last() {
            Some(reading) => present(readings.drop_last()).push(reading),
            None => present(readings.drop_last()),
        }
    }
}

/// Reads one process.
pub fn read_sample(sample: &ProcessSample) -> (r: Option<ProcessReading>)
    ensures
        match r {
            Some(reading) => sample_reading(*sample) == Some(reading@),
            None => sample_reading(*sample) is None,
        },
{
    match (&sample.rss, &sample.name) {
        (Some(rss), Some(name)) => if *rss > 0 {
            Some(ProcessReading { name: name.clone(), rss: *rss })
        } else {
            None
        },
        _ => None,
    }
}

/// How many of the readings bear the name.
pub open spec fn count_of(readings: Seq<Reading>, name: Seq<char>) -> nat
    decreases readings.len(),
{
    if readings.len() == 0 {
        0
    } else {
        count_of(readings.drop_last(), name) + (if readings.last().name == name {
            1nat
        } else {
            0nat
        })
    }
}

/// The bytes of all readings that bear the name.
pub open spec fn total_of(readings: Seq<Reading>, name: Seq<char>) -> nat
    decreases readings.len(),
{
    if readings.len() == 0 {
        0
    } else {
        total_of(readings.drop_last(), name) + (if readings.last().name == name {
            readings.last().rss as nat
        } else {
            0nat
        })
    }
}

/// The names that occur, each once, in the order in which they first occur.
pub open spec fn names(readings: Seq<Reading>) -> Seq<Seq<char>>
    decreases readings.len(),
{
    if readings.len() == 0 {
        Seq::empty()
    } else {
        let earlier = names(readings.drop_last());
        if earlier.contains(readings.last().name) {
            earlier
        } else {
            earlier.push(readings.last().name)
        }
    }
}

/// Everything that the readings say of one name. The bytes stop at `u64::MAX`.
pub open spec fn group_of(readings: Seq<Reading>, name: Seq<char>) -> Group {
    Group {
        name,
        count: count_of(readings, name),
        rss: saturated(total_of(readings, name) as int),
    }
}

/// One group for each name that occurs.
pub open spec fn tally(readings: Seq<Reading>) -> Seq<Group> {
    names(readings).map_values(|name: Seq<char>| group_of(readings, name))
}

/// No group is larger than the one at `i`, and none before it is as large.
pub open spec fn is_first_largest(groups: Seq<Group>, i: int) -> bool {
    &&& 0 <= i < groups.len()
    &&& forall|j: int| 0 <= j < groups.len() ==> (#[trigger] groups[j]).rss <= groups[i].rss
    &&& forall|j: int| 0 <= j < i ==> (#[trigger] groups[j]).rss < groups[i].rss
}

/// The place of the largest group; of several, the first.
pub open spec fn first_largest(groups: Seq<Group>) -> int {
    choose|i: int| is_first_largest(groups, i)
}

/// The `n` largest groups (all of them where they are fewer), the largest
/// first. Groups of one size keep their order.
pub open spec fn top(groups: Seq<Group>, n: nat) -> Seq<Group>
    decreases n,
{
    if n == 0 || groups.len() == 0 {
        Seq::empty()
    } else {
        let i = first_largest(groups);
        seq![groups[i]] + top(groups.remove(i), (n - 1) as nat)
    }
}

/// Only one place holds the first largest group.
pub proof fn lemma_first_largest_unique(groups: Seq<Group>, i: int)
    requires
        is_first_largest(groups, i),
    ensures
        first_largest(groups) == i,
{
    let k = first_largest(groups);
    assert(is_first_largest(groups, k));
    if k < i {
        assert(groups[k].rss < groups[i].rss);
    } else if i < k {
        assert(groups[i].rss < groups[k].rss);
    }
}

/// Every non-empty list of groups has a first largest one.
proof fn lemma_first_largest_exists(groups: Seq<Group>)
    requires
        groups.len() > 0,
    ensures
        is_first_largest(groups, first_largest(groups)),
    decreases groups.len(),
{
    if groups.len() == 1 {
        assert(is_first_largest(groups, 0));
    } else {
        let front = groups.drop_last();
        lemma_first_largest_exists(front);
        let k = first_largest(front);
        let last = groups.len() - 1;
        assert(forall|j: int| 0 <= j < last ==> front[j] == groups[j]);
        if groups[last].rss > groups[k].rss {
            assert forall|j: int| 0 <= j < last implies (#[trigger] groups[j]).rss
                < groups[last].rss by {
                assert(front[j].rss <= front[k].rss);
            }
            assert(is_first_largest(groups, last));
        } else {
            assert forall|j: int| 0 <= j < groups.len() implies (#[trigger] groups[j]).rss
                <= groups[k].rss by {
                if j < last {
                    assert(front[j].rss <= front[k].rss);
                }
            }
            assert forall|j: int| 0 <= j < k implies (#[trigger] groups[j]).rss
                < groups[k].rss by {
                assert(front[j].rss < front[k].rss);
            }
            assert(is_first_largest(groups, k));
        }
    }
}

/// A name is listed just where some reading bears it.
proof fn lemma_names(readings: Seq<Reading>)
    ensures
        names(readings).no_duplicates(),
        forall|i: int|
            0 <= i < readings.len() ==> names(readings).contains(
                (#[trigger] readings[i]).name,
            ),
        forall|k: int|
            0 <= k < names(readings).len() ==> count_of(
                readings,
                #[trigger] names(readings)[k],
            ) > 0,
    decreases readings.len(),
{
    if readings.len() > 0 {
        let front = readings.drop_last();
        let last = readings.last();
        let earlier = names(front);
        lemma_names(front);
        let listed = names(readings);
        if earlier.contains(last.name) {
            assert(listed == earlier);
        } else {
            assert(listed[earlier.len() as int] == last.name);
        }
        assert(listed.contains(last.name));
        assert forall|i: int| 0 <= i < readings.len() implies listed.contains(
            (#[trigger] readings[i]).name,
        ) by {
            if i < front.len() {
                assert(readings[i] == front[i]);
                let k = choose|k: int| 0 <= k < earlier.len() && earlier[k] == front[i].name;
                assert(listed[k] == readings[i].name);
            }
        }
        assert forall|k: int| 0 <= k < listed.len() implies count_of(
            readings,
            #[trigger] listed[k],
        ) > 0 by {
            if k < earlier.len() {
                assert(listed[k] == earlier[k]);
                assert(count_of(front, earlier[k]) > 0);
            }
        }
    }
}

/// A name that no reading bears has no bytes.
proof fn lemma_absent(readings: Seq<Reading>, name: Seq<char>)
    requires
        !names(readings).contains(name),
    ensures
        count_of(readings, name) == 0,
        total_of(readings, name) == 0,
    decreases readings.len(),
{
    if readings.len() > 0 {
        let front = readings.drop_last();
        let earlier = names(front);
        if earlier.contains(name) {
            let k = choose|k: int| 0 <= k < earlier.len() && earlier[k] == name;
            assert(names(readings)[k] == name);
        }
        lemma_absent(front, name);
        lemma_names(readings);
        assert(readings[readings.len() - 1].name != name);
    }
}

/// The count of a name stays within the number of readings.
proof fn lemma_count_bound(readings: Seq<Reading>, name: Seq<char>)
    ensures
        count_of(readings, name) <= readings.len(),
    decreases readings.len(),
{
    if readings.len() > 0 {
        lemma_count_bound(readings.drop_last(), name);
    }
}

/// One more reading under a known name changes the group of that name and no other.
proof fn lemma_tally_known(readings: Seq<Reading>, next: Reading, k: int)
    requires
        0 <= k < names(readings).len(),
        names(readings)[k] == next.name,
    ensures
        tally(readings.push(next)) == tally(readings).update(
            k,
            Group {
                name: next.name,
                count: tally(readings)[k].count + 1,
                rss: saturated(tally(readings)[k].rss + next.rss),
            },
        ),
{
    let more = readings.push(next);
    let listed = names(readings);
    assert(more.drop_last() == readings);
    assert(more.last() == next);
    lemma_names(readings);
    assert(listed.contains(next.name));
    assert(names(more) == listed);
    assert forall|j: int| 0 <= j < listed.len() && j != k implies tally(more)[j] == tally(
        readings,
    )[j] by {
        assert(listed[j] != listed[k]);
    }
    assert(tally(more) =~= tally(readings).update(
        k,
        Group {
            name: next.name,
            count: tally(readings)[k].count + 1,
            rss: saturated(tally(readings)[k].rss + next.rss),
        },
    ));
}

/// One more reading under a new name adds a group at the end.
proof fn lemma_tally_new(readings: Seq<Reading>, next: Reading)
    requires
        !names(readings).contains(next.name),
    ensures
        tally(readings.push(next)) == tally(readings).push(
            Group { name: next.name, count: 1, rss: next.rss },
        ),
{
    let more = readings.push(next);
    let listed = names(readings);
    assert(more.drop_last() == readings);
    assert(more.last() == next);
    lemma_absent(readings, next.name);
    assert(names(more) == listed.push(next.name));
    assert forall|j: int| 0 <= j < listed.len() implies tally(more)[j] == tally(
        readings,
    )[j] by {
        assert(listed.contains(listed[j]));
    }
    assert(tally(more) =~= tally(readings).push(
        Group { name: next.name, count: 1, rss: next.rss },
    ));
}

/// Gathers the readings under their names.
pub fn tally_processes(readings: &[ProcessReading]) -> (groups: Vec<ProcessGroup>)
    ensures
        group_views(groups@) == tally(reading_views(readings@)),
{
    let mut groups: Vec<ProcessGroup> = Vec::new();
    let ghost views = reading_views(readings@);
    assert(views.take(0) =~= Seq::<Reading>::empty());
    assert(group_views(groups@) =~= tally(views.take(0)));
    let mut i: usize = 0;
    while i < readings.len()
        invariant
            i <= readings.len(),
            views == reading_views(readings@),
            group_views(groups@) == tally(views.take(i as int)),
        decreases readings.len() - i,
    {
        let ghost done = views.take(i as int);
        let ghost next = views[i as int];
        let ghost before = groups@;
        proof {
            assert(views.take(i + 1) =~= done.push(next));
        }
        let reading = &readings[i];
        let mut k: usize = 0;
        while k < groups.len() && !(groups[k].name == reading.name)
            invariant
                k <= groups.len(),
                reading.name@ == next.name,
                forall|j: int| 0 <= j < k ==> (#[trigger] groups@[j]).name@ != next.name,
            decreases groups.len() - k,
        {
            k += 1;
        }
        proof {
            assert(groups.len() == names(done).len()) by {
                assert(group_views(groups@).len() == tally(done).len());
            }
            assert forall|j: int| 0 <= j < groups.len() implies names(done)[j]
                == (#[trigger] groups@[j]).name@ by {
                assert(group_views(groups@)[j] == groups@[j]@);
                assert(tally(done)[j] == group_of(done, names(done)[j]));
            }
        }
        if k < groups.len() {
            proof {
                lemma_count_bound(done, next.name);
                assert(group_views(groups@)[k as int] == tally(done)[k as int]);
            }
            let group = ProcessGroup {
                name: reading.name.clone(),
                count: groups[k].count + 1,
                rss: groups[k].rss.saturating_add(reading.rss),
            };
            groups[k] = group;
            proof {
                lemma_tally_known(done, next, k as int);
            }
            assert(group_views(groups@) =~= group_views(before).update(k as int, group@));
        } else {
            proof {
                if names(done).contains(next.name) {
                    let j = choose|j: int| 0 <= j < names(done).len() && names(done)[j]
                        == next.name;
                    assert(groups@[j].name@ == next.name);
                }
                lemma_tally_new(done, next);
            }
            let group = ProcessGroup { name: reading.name.clone(), count: 1, rss: reading.rss };
            groups.push(group);
            assert(group_views(groups@) =~= group_views(before).push(group@));
        }
        i += 1;
    }
    assert(views.take(readings.len() as int) =~= views);
    groups
}

/// Keeps the `process_count` largest groups, the largest first.
pub fn rank_process_groups(groups: Vec<ProcessGroup>, process_count: usize) -> (ranked: Vec<
    ProcessGroup,
>)
    ensures
        group_views(ranked@) == top(group_views(groups@), process_count as nat),
{
    let ghost all = group_views(groups@);
    let mut rest = groups;
    let mut ranked: Vec<ProcessGroup> = Vec::new();
    assert(group_views(ranked@) + top(all, process_count as nat) =~= top(
        all,
        process_count as nat,
    ));
    while ranked.len() < process_count && rest.len() > 0
        invariant
            ranked.len() <= process_count,
            group_views(ranked@) + top(
                group_views(rest@),
                (process_count - ranked.len()) as nat,
            ) == top(all, process_count as nat),
        decreases rest.len(),
    {
        let ghost shown = group_views(ranked@);
        let ghost left = group_views(rest@);
        let ghost wanted = (process_count - ranked.len()) as nat;
        let mut best: usize = 0;
        let mut j: usize = 1;
        while j < rest.len()
            invariant
                best < j <= rest.len(),
                left == group_views(rest@),
                forall|k: int| 0 <= k < j ==> (#[trigger] left[k]).rss <= left[best as int].rss,
                forall|k: int| 0 <= k < best ==> (#[trigger] left[k]).rss < left[best as int].rss,
            decreases rest.len() - j,
        {
            assert(left[j as int] == rest@[j as int]@);
            assert(left[best as int] == rest@[best as int]@);
            if rest[j].rss > rest[best].rss {
                best = j;
            }
            j += 1;
        }
        proof {
            assert(is_first_largest(left, best as int));
            lemma_first_largest_unique(left, best as int);
        }
        let group = rest.remove(best);
        ranked.push(group);
        proof {
            assert(group_views(rest@) =~= left.remove(best as int));
            assert(group_views(ranked@) =~= shown.push(left[best as int]));
            let fewer = top(group_views(rest@), (wanted - 1) as nat);
            assert(shown + (seq![left[best as int]] + fewer) =~= shown.push(left[best as int])
                + fewer);
        }
    }
    assert(group_views(ranked@) + Seq::<Group>::empty() =~= group_views(ranked@));
    ranked
}

/// No two groups share a name.
pub open spec fn distinct_names(groups: Seq<Group>) -> bool {
    forall|i: int, j: int|
        0 <= i < groups.len() && 0 <= j < groups.len() && i != j ==> (#[trigger] groups[i]).name
            != (#[trigger] groups[j]).name
}

/// How many processes some groups hold together.
pub open spec fn processes(groups: Seq<Group>) -> nat
    decreases groups.len(),
{
    if groups.len() == 0 {
        0
    } else {
        processes(groups.drop_last()) + groups.last().count
    }
}

/// Every name that occurs has one group and only one, and no group is empty.
pub proof fn law_one_group_per_name(readings: Seq<Reading>)
    ensures
        distinct_names(tally(readings)),
        forall|i: int|
            0 <= i < readings.len() ==> tally(readings).contains(
                group_of(readings, (#[trigger] readings[i]).name),
            ),
        forall|k: int| 0 <= k < tally(readings).len() ==> (#[trigger] tally(readings)[k]).count > 0,
{
    lemma_names(readings);
    let listed = names(readings);
    let groups = tally(readings);
    assert forall|i: int, j: int|
        0 <= i < groups.len() && 0 <= j < groups.len() && i != j implies (
    #[trigger] groups[i]).name != (#[trigger] groups[j]).name by {
        assert(groups[i].name == listed[i]);
        assert(groups[j].name == listed[j]);
    }
    assert forall|i: int| 0 <= i < readings.len() implies groups.contains(
        group_of(readings, (#[trigger] readings[i]).name),
    ) by {
        let k = choose|k: int| 0 <= k < listed.len() && listed[k] == readings[i].name;
        assert(groups[k] == group_of(readings, readings[i].name));
    }
    assert forall|k: int| 0 <= k < groups.len() implies (#[trigger] groups[k]).count > 0 by {
        assert(groups[k] == group_of(readings, listed[k]));
    }
}

/// One changed count changes the sum by as much.
proof fn lemma_processes_update(groups: Seq<Group>, k: int, group: Group)
    requires
        0 <= k < groups.len(),
    ensures
        processes(groups.update(k, group)) + groups[k].count == processes(groups) + group.count,
    decreases groups.len(),
{
    let changed = groups.update(k, group);
    if k == groups.len() - 1 {
        assert(changed.drop_last() =~= groups.drop_last());
    } else {
        lemma_processes_update(groups.drop_last(), k, group);
        assert(changed.drop_last() =~= groups.drop_last().update(k, group));
    }
}

/// The groups hold each counted process once.
pub proof fn law_every_process_in_one_group(readings: Seq<Reading>)
    ensures
        processes(tally(readings)) == readings.len(),
    decreases readings.len(),
{
    if readings.len() == 0 {
        assert(tally(readings) =~= Seq::<Group>::empty());
    } else {
        let front = readings.drop_last();
        let last = readings.last();
        law_every_process_in_one_group(front);
        assert(readings =~= front.push(last));
        if names(front).contains(last.name) {
            let k = choose|k: int| 0 <= k < names(front).len() && names(front)[k] == last.name;
            lemma_tally_known(front, last, k);
            lemma_processes_update(
                tally(front),
                k,
                Group {
                    name: last.name,
                    count: tally(front)[k].count + 1,
                    rss: saturated(tally(front)[k].rss + last.rss),
                },
            );
        } else {
            lemma_tally_new(front, last);
            let group = Group { name: last.name, count: 1, rss: last.rss };
            assert(tally(front).push(group).drop_last() =~= tally(front));
        }
    }
}

/// A name has at least the bytes of each reading that bears it.
proof fn lemma_total_covers(readings: Seq<Reading>, i: int)
    requires
        0 <= i < readings.len(),
    ensures
        total_of(readings, readings[i].name) >= readings[i].rss,
    decreases readings.len(),
{
    if i < readings.len() - 1 {
        lemma_total_covers(readings.drop_last(), i);
    }
}

/// The group of a process is at least as large as the process.
pub proof fn law_group_covers_its_processes(readings: Seq<Reading>, i: int)
    requires
        0 <= i < readings.len(),
    ensures
        group_of(readings, readings[i].name).rss >= readings[i].rss,
{
    lemma_total_covers(readings, i);
}

/// A name that is listed belongs to a reading.
proof fn lemma_listed_name_occurs(readings: Seq<Reading>, name: Seq<char>) -> (i: int)
    requires
        count_of(readings, name) > 0,
    ensures
        0 <= i < readings.len(),
        readings[i].name == name,
    decreases readings.len(),
{
    if readings.last().name == name {
        readings.len() - 1
    } else {
        lemma_listed_name_occurs(readings.drop_last(), name)
    }
}

/// Where every process keeps something in memory, so does every group.
pub proof fn law_groups_keep_memory(readings: Seq<Reading>, k: int)
    requires
        forall|i: int| 0 <= i < readings.len() ==> (#[trigger] readings[i]).rss > 0,
        0 <= k < tally(readings).len(),
    ensures
        tally(readings)[k].rss > 0,
{
    lemma_names(readings);
    let name = names(readings)[k];
    let i = lemma_listed_name_occurs(readings, name);
    law_group_covers_its_processes(readings, i);
    assert(readings[i].rss > 0);
}

/// A reading that is present is one of those given.
pub proof fn law_present_are_given(readings: Seq<Option<Reading>>, i: int)
    requires
        0 <= i < present(readings).len(),
    ensures
        readings.contains(Some(present(readings)[i])),
    decreases readings.len(),
{
    if readings.len() > 0 {
        let front = readings.drop_last();
        if i < present(front).len() {
            law_present_are_given(front, i);
            let j = choose|j: int| 0 <= j < front.len() && front[j] == Some(present(front)[i]);
            assert(readings[j] == Some(present(readings)[i]));
        } else {
            assert(readings[readings.len() - 1] == Some(present(readings)[i]));
        }
    }
}

/// Taking one reading out takes its share out of the group of its name.
proof fn lemma_group_remove(readings: Seq<Reading>, i: int, name: Seq<char>)
    requires
        0 <= i < readings.len(),
    ensures
        count_of(readings, name) == count_of(readings.remove(i), name) + (if readings[i].name
            == name {
            1nat
        } else {
            0nat
        }),
        total_of(readings, name) == total_of(readings.remove(i), name) + (if readings[i].name
            == name {
            readings[i].rss as nat
        } else {
            0nat
        }),
    decreases readings.len(),
{
    let last = readings.len() - 1;
    if i == last {
        assert(readings.remove(i) =~= readings.drop_last());
    } else {
        let front = readings.drop_last();
        lemma_group_remove(front, i, name);
        assert(readings.remove(i).drop_last() =~= front.remove(i));
        assert(readings.remove(i).last() == readings.last());
    }
}

/// What a name gets does not depend on the order of the readings.
proof fn lemma_same_share(a: Seq<Reading>, b: Seq<Reading>, name: Seq<char>)
    requires
        a.to_multiset() == b.to_multiset(),
    ensures
        count_of(a, name) == count_of(b, name),
        total_of(a, name) == total_of(b, name),
    decreases a.len(),
{
    broadcast use vstd::seq_lib::group_to_multiset_ensures;

    assert(a.len() == a.to_multiset().len());
    assert(b.len() == b.to_multiset().len());
    if a.len() > 0 {
        let last = a.last();
        let front = a.drop_last();
        assert(a.contains(last)) by {
            assert(a[a.len() - 1] == last);
        }
        assert(b.to_multiset().count(last) > 0);
        assert(b.contains(last));
        let i = choose|i: int| 0 <= i < b.len() && b[i] == last;
        let rest = b.remove(i);
        assert(a =~= front.push(last));
        assert(a.to_multiset() =~= front.to_multiset().insert(last));
        assert(rest.to_multiset() =~= b.to_multiset().remove(last));
        assert(front.to_multiset() =~= rest.to_multiset());
        lemma_same_share(front, rest, name);
        lemma_group_remove(a, a.len() - 1, name);
        assert(a.remove(a.len() - 1) =~= front);
        lemma_group_remove(b, i, name);
    }
}

/// Which groups come out depends on which processes there are, not on the
/// order in which they are read.
pub proof fn law_order_does_not_matter(a: Seq<Reading>, b: Seq<Reading>)
    requires
        a.to_multiset() == b.to_multiset(),
    ensures
        forall|group: Group| tally(a).contains(group) <==> #[trigger] tally(b).contains(group),
{
    assert forall|group: Group| tally(a).contains(group) implies #[trigger] tally(b).contains(
        group,
    ) by {
        lemma_groups_carry_over(a, b, group);
    }
    assert forall|group: Group| #[trigger] tally(b).contains(group) implies tally(a).contains(
        group,
    ) by {
        lemma_groups_carry_over(b, a, group);
    }
}

proof fn lemma_groups_carry_over(a: Seq<Reading>, b: Seq<Reading>, group: Group)
    requires
        a.to_multiset() == b.to_multiset(),
        tally(a).contains(group),
    ensures
        tally(b).contains(group),
{
    let k = choose|k: int| 0 <= k < tally(a).len() && tally(a)[k] == group;
    let name = names(a)[k];
    assert(group == group_of(a, name));
    lemma_names(a);
    lemma_same_share(a, b, name);
    if !names(b).contains(name) {
        lemma_absent(b, name);
    }
    let j = choose|j: int| 0 <= j < names(b).len() && names(b)[j] == name;
    assert(tally(b)[j] == group);
}

/// As many groups are shown as are asked for, or all of them.
pub proof fn law_top_len(groups: Seq<Group>, n: nat)
    ensures
        top(groups, n).len() == (if n < groups.len() {
            n
        } else {
            groups.len()
        }),
    decreases n,
{
    if n > 0 && groups.len() > 0 {
        lemma_first_largest_exists(groups);
        law_top_len(groups.remove(first_largest(groups)), (n - 1) as nat);
    }
}

/// Every shown group is one of the groups.
pub proof fn law_top_shows_groups(groups: Seq<Group>, n: nat)
    ensures
        forall|i: int|
            0 <= i < top(groups, n).len() ==> groups.contains(#[trigger] top(groups, n)[i]),
    decreases n,
{
    if n > 0 && groups.len() > 0 {
        lemma_first_largest_exists(groups);
        let k = first_largest(groups);
        let rest = groups.remove(k);
        let tail = top(rest, (n - 1) as nat);
        law_top_shows_groups(rest, (n - 1) as nat);
        assert forall|i: int| 0 <= i < top(groups, n).len() implies groups.contains(
            #[trigger] top(groups, n)[i],
        ) by {
            if i > 0 {
                assert(top(groups, n)[i] == tail[i - 1]);
                let j = choose|j: int| 0 <= j < rest.len() && rest[j] == tail[i - 1];
                assert(groups[if j < k {
                    j
                } else {
                    j + 1
                }] == rest[j]);
            }
        }
    }
}

/// The shown groups stand in order, the largest first.
pub proof fn law_top_is_sorted(groups: Seq<Group>, n: nat)
    ensures
        forall|i: int, j: int|
            0 <= i <= j < top(groups, n).len() ==> (#[trigger] top(groups, n)[i]).rss >= (
            #[trigger] top(groups, n)[j]).rss,
    decreases n,
{
    if n > 0 && groups.len() > 0 {
        lemma_first_largest_exists(groups);
        let k = first_largest(groups);
        let rest = groups.remove(k);
        let shown = top(groups, n);
        let tail = top(rest, (n - 1) as nat);
        law_top_is_sorted(rest, (n - 1) as nat);
        law_top_shows_groups(groups, n);
        assert forall|i: int, j: int| 0 <= i <= j < shown.len() implies (#[trigger] shown[i]).rss
            >= (#[trigger] shown[j]).rss by {
            if i > 0 {
                assert(shown[i] == tail[i - 1]);
                assert(shown[j] == tail[j - 1]);
            } else {
                assert(groups.contains(shown[j]));
            }
        }
    }
}

/// No group that is left out is larger than one that is shown.
pub proof fn law_top_leaves_out_the_smaller(groups: Seq<Group>, n: nat, i: int)
    requires
        0 <= i < groups.len(),
    ensures
        top(groups, n).contains(groups[i]) || forall|j: int|
            0 <= j < top(groups, n).len() ==> (#[trigger] top(groups, n)[j]).rss >= groups[i].rss,
    decreases n,
{
    if n > 0 {
        lemma_first_largest_exists(groups);
        let k = first_largest(groups);
        let rest = groups.remove(k);
        let shown = top(groups, n);
        let tail = top(rest, (n - 1) as nat);
        assert(forall|j: int| 0 < j < shown.len() ==> #[trigger] shown[j] == tail[j - 1]);
        if i == k {
            assert(shown[0] == groups[i]);
        } else {
            let at = if i < k {
                i
            } else {
                i - 1
            };
            assert(rest[at] == groups[i]);
            law_top_leaves_out_the_smaller(rest, (n - 1) as nat, at);
            if tail.contains(groups[i]) {
                let j = choose|j: int| 0 <= j < tail.len() && tail[j] == groups[i];
                assert(shown[j + 1] == groups[i]);
            } else {
                assert forall|j: int| 0 <= j < shown.len() implies (#[trigger] shown[j]).rss
                    >= groups[i].rss by {
                    if j > 0 {
                        assert(tail[j - 1].rss >= groups[i].rss);
                    }
                }
            }
        }
    }
}

/// Asking for more groups adds some at the end and changes none.
pub proof fn law_top_grows_at_the_end(groups: Seq<Group>, n: nat, m: nat)
    requires
        n <= m,
    ensures
        top(groups, n).is_prefix_of(top(groups, m)),
    decreases n,
{
    if n > 0 && groups.len() > 0 {
        let k = first_largest(groups);
        let rest = groups.remove(k);
        let less = top(rest, (n - 1) as nat);
        let more = top(rest, (m - 1) as nat);
        law_top_grows_at_the_end(rest, (n - 1) as nat, (m - 1) as nat);
        assert(top(groups, n) == seq![groups[k]] + less);
        assert(top(groups, m) == seq![groups[k]] + more);
        assert(top(groups, n) =~= top(groups, m).subrange(0, top(groups, n).len() as int));
    } else {
        assert(top(groups, n) =~= top(groups, m).subrange(0, 0));
    }
}

/// No name is shown twice.
pub proof fn law_top_keeps_names_distinct(groups: Seq<Group>, n: nat)
    requires
        distinct_names(groups),
    ensures
        distinct_names(top(groups, n)),
    decreases n,
{
    if n > 0 && groups.len() > 0 {
        lemma_first_largest_exists(groups);
        let k = first_largest(groups);
        let rest = groups.remove(k);
        let shown = top(groups, n);
        let tail = top(rest, (n - 1) as nat);
        assert forall|i: int, j: int|
            0 <= i < rest.len() && 0 <= j < rest.len() && i != j implies (#[trigger] rest[i]).name
            != (#[trigger] rest[j]).name by {
            let a = if i < k {
                i
            } else {
                i + 1
            };
            let b = if j < k {
                j
            } else {
                j + 1
            };
            assert(rest[i] == groups[a]);
            assert(rest[j] == groups[b]);
        }
        law_top_keeps_names_distinct(rest, (n - 1) as nat);
        law_top_shows_groups(rest, (n - 1) as nat);
        assert forall|j: int| 0 <= j < tail.len() implies (#[trigger] tail[j]).name
            != groups[k].name by {
            let a = choose|a: int| 0 <= a < rest.len() && rest[a] == tail[j];
            assert(rest.contains(tail[j]));
            assert(rest[a] == groups[if a < k {
                a
            } else {
                a + 1
            }]);
        }
        assert forall|i: int, j: int|
            0 <= i < shown.len() && 0 <= j < shown.len() && i != j implies (
        #[trigger] shown[i]).name != (#[trigger] shown[j]).name by {
            if i > 0 {
                assert(shown[i] == tail[i - 1]);
            }
            if j > 0 {
                assert(shown[j] == tail[j - 1]);
            }
        }
    }
}

/// However many groups are shown, no name is among them twice, and where every
/// process keeps something in memory each group shown does.
pub proof fn law_shown_groups(readings: Seq<Reading>, n: nat)
    requires
        forall|i: int| 0 <= i < readings.len() ==> (#[trigger] readings[i]).rss > 0,
    ensures
        distinct_names(top(tally(readings), n)),
        forall|i: int|
            0 <= i < top(tally(readings), n).len() ==> (#[trigger] top(tally(readings), n)[i]).rss
                > 0,
{
    let groups = tally(readings);
    let shown = top(groups, n);
    law_one_group_per_name(readings);
    law_top_keeps_names_distinct(groups, n);
    law_top_shows_groups(groups, n);
    assert forall|i: int| 0 <= i < shown.len() implies (#[trigger] shown[i]).rss > 0 by {
        let k = choose|k: int| 0 <= k < groups.len() && groups[k] == shown[i];
        law_groups_keep_memory(readings, k);
    }
}

/// Whether a reading bears the name.
pub open spec fn bears(name: Seq<char>) -> spec_fn(Reading) -> bool {
    |reading: Reading| reading.name == name
}

/// The bytes of one more reading, added.
pub open spec fn add_bytes() -> spec_fn(int, Reading) -> int {
    |sum: int, reading: Reading| sum + reading.rss
}

/// The bytes of all the readings under a name, added up.
pub open spec fn bytes_under(readings: Seq<Reading>, name: Seq<char>) -> int {
    readings.filter(bears(name)).fold_left(0int, add_bytes())
}

/// What a name gets is what its readings have.
proof fn lemma_share(readings: Seq<Reading>, name: Seq<char>)
    ensures
        count_of(readings, name) == readings.filter(bears(name)).len(),
        total_of(readings, name) == bytes_under(readings, name),
    decreases readings.len(),
{
    reveal(Seq::filter);
    if readings.len() > 0 {
        let front = readings.drop_last();
        lemma_share(front, name);
        if readings.last().name == name {
            assert(readings.filter(bears(name)) == front.filter(bears(name)).push(
                readings.last(),
            ));
            assert(readings.filter(bears(name)).drop_last() =~= front.filter(bears(name)));
        }
    }
}

/// A group counts every reading under its name and no other, and has the bytes
/// of them all, or as many as can be told.
pub proof fn law_group_is_all_of_its_name(readings: Seq<Reading>, k: int)
    requires
        0 <= k < tally(readings).len(),
    ensures
        tally(readings)[k].count == readings.filter(bears(tally(readings)[k].name)).len(),
        tally(readings)[k].count > 0,
        tally(readings)[k].rss == (if bytes_under(readings, tally(readings)[k].name)
            <= 0xffff_ffff_ffff_ffff {
            bytes_under(readings, tally(readings)[k].name)
        } else {
            0xffff_ffff_ffff_ffff
        }),
{
    let name = names(readings)[k];
    lemma_names(readings);
    lemma_share(readings, name);
    assert(count_of(readings, name) > 0);
}

/// Every reading has a group under its name.
pub proof fn law_every_reading_has_a_group(readings: Seq<Reading>, i: int) -> (k: int)
    requires
        0 <= i < readings.len(),
    ensures
        0 <= k < tally(readings).len(),
        tally(readings)[k].name == readings[i].name,
{
    lemma_names(readings);
    let listed = names(readings);
    assert(listed.contains(readings[i].name));
    choose|k: int| 0 <= k < listed.len() && listed[k] == readings[i].name
}

/// No two groups have the same name.
pub proof fn law_no_two_groups_share_a_name(readings: Seq<Reading>, i: int, j: int)
    requires
        0 <= i < j < tally(readings).len(),
    ensures
        tally(readings)[i].name != tally(readings)[j].name,
{
    lemma_names(readings);
}

/// All that is shown where all is asked for is what there is, each group as
/// often as it is there.
pub proof fn law_top_can_show_all(groups: Seq<Group>)
    ensures
        top(groups, groups.len()).to_multiset() == groups.to_multiset(),
    decreases groups.len(),
{
    broadcast use vstd::seq_lib::group_to_multiset_ensures;

    if groups.len() > 0 {
        lemma_first_largest_exists(groups);
        let k = first_largest(groups);
        let rest = groups.remove(k);
        law_top_can_show_all(rest);
        let tail = top(rest, rest.len());
        assert(top(groups, groups.len()) == seq![groups[k]] + tail);
        vstd::seq_lib::lemma_multiset_commutative(seq![groups[k]], tail);
        assert(seq![groups[k]] =~= Seq::<Group>::empty().push(groups[k]));
        assert(seq![groups[k]].to_multiset() =~= vstd::multiset::Multiset::singleton(groups[k]));
        assert(rest.to_multiset() =~= groups.to_multiset().remove(groups[k]));
        assert(groups.to_multiset().count(groups[k]) > 0) by {
            assert(groups.contains(groups[k]));
        }
        assert(top(groups, groups.len()).to_multiset() =~= groups.to_multiset());
    }
}

/// What is shown of some readings: no more groups than are asked for, each with
/// all the readings of its name, no name twice, the largest first.
pub proof fn law_shown_groups_are_whole(readings: Seq<Reading>, n: nat)
    ensures
        top(tally(readings), n).len() <= n,
        forall|k: int|
            0 <= k < top(tally(readings), n).len() ==> {
                let group = #[trigger] top(tally(readings), n)[k];
                &&& group.count > 0
                &&& group.count == readings.filter(bears(group.name)).len()
                &&& group.rss == (if bytes_under(readings, group.name) <= 0xffff_ffff_ffff_ffff {
                    bytes_under(readings, group.name)
                } else {
                    0xffff_ffff_ffff_ffff
                })
            },
        forall|j: int, k: int|
            0 <= j < k < top(tally(readings), n).len() ==> {
                &&& (#[trigger] top(tally(readings), n)[j]).rss >= (
                #[trigger] top(tally(readings), n)[k]).rss
                &&& top(tally(readings), n)[j].name != top(tally(readings), n)[k].name
            },
{
    let groups = tally(readings);
    let shown = top(groups, n);
    law_top_len(groups, n);
    law_top_shows_groups(groups, n);
    law_top_is_sorted(groups, n);
    law_one_group_per_name(readings);
    law_top_keeps_names_distinct(groups, n);
    assert forall|k: int| 0 <= k < shown.len() implies {
        let group = #[trigger] shown[k];
        &&& group.count > 0
        &&& group.count == readings.filter(bears(group.name)).len()
        &&& group.rss == (if bytes_under(readings, group.name) <= 0xffff_ffff_ffff_ffff {
            bytes_under(readings, group.name)
        } else {
            0xffff_ffff_ffff_ffff
        })
    } by {
        assert(groups.contains(shown[k]));
        let j = choose|j: int| 0 <= j < groups.len() && groups[j] == shown[k];
        law_group_is_all_of_its_name(readings, j);
    }
}

/// A process is either shown, in the group of its name, or as many groups as
/// are asked for are shown and none of them is smaller than that process.
pub proof fn law_no_larger_process_is_left_out(readings: Seq<Reading>, n: nat, i: int)
    requires
        0 <= i < readings.len(),
    ensures
        (exists|k: int|
            0 <= k < top(tally(readings), n).len() && (#[trigger] top(tally(readings), n)[k]).name
                == readings[i].name) || (top(tally(readings), n).len() == n && forall|k: int|
            0 <= k < n ==> (#[trigger] top(tally(readings), n)[k]).rss >= readings[i].rss),
{
    let groups = tally(readings);
    let shown = top(groups, n);
    let at = law_every_reading_has_a_group(readings, i);
    law_top_len(groups, n);
    law_top_leaves_out_the_smaller(groups, n, at);
    law_group_covers_its_processes(readings, i);
    assert(groups[at] == group_of(readings, names(readings)[at]));
    if shown.contains(groups[at]) {
        let k = choose|k: int| 0 <= k < shown.len() && shown[k] == groups[at];
        assert(shown[k].name == readings[i].name);
    } else if groups.len() <= n {
        lemma_all_are_shown(groups, n, at);
    }
}

/// Where no fewer groups are asked for than there are, every group is shown.
proof fn lemma_all_are_shown(groups: Seq<Group>, n: nat, i: int)
    requires
        groups.len() <= n,
        0 <= i < groups.len(),
    ensures
        top(groups, n).contains(groups[i]),
    decreases n,
{
    lemma_first_largest_exists(groups);
    let k = first_largest(groups);
    let rest = groups.remove(k);
    let tail = top(rest, (n - 1) as nat);
    let shown = top(groups, n);
    if i == k {
        assert(shown[0] == groups[i]);
    } else {
        let at = if i < k {
            i
        } else {
            i - 1
        };
        assert(rest[at] == groups[i]);
        lemma_all_are_shown(rest, (n - 1) as nat, at);
        let j = choose|j: int| 0 <= j < tail.len() && tail[j] == groups[i];
        assert(shown[j + 1] == groups[i]);
    }
}

/// The readings that two lists give together are those that each gives.
pub proof fn law_present_are_read_one_by_one(a: Seq<Option<Reading>>, b: Seq<Option<Reading>>)
    ensures
        present(a + b) == present(a) + present(b),
    decreases b.len(),
{
    if b.len() == 0 {
        assert(a + b =~= a);
        assert(present(a) + present(b) =~= present(a));
    } else {
        law_present_are_read_one_by_one(a, b.drop_last());
        assert((a + b).drop_last() =~= a + b.drop_last());
        assert((a + b).last() == b.last());
        assert(present(a + b) =~= present(a) + present(b));
    }
}

/// A reading that is given is present.
pub proof fn law_given_are_present(readings: Seq<Option<Reading>>, i: int)
    requires
        0 <= i < readings.len(),
        readings[i] is Some,
    ensures
        present(readings).contains(readings[i]->0),
    decreases readings.len(),
{
    let front = readings.drop_last();
    if i < front.len() {
        law_given_are_present(front, i);
        let j = choose|j: int|
            0 <= j < present(front).len() && present(front)[j] == readings[i]->0;
        assert(present(readings)[j] == readings[i]->0);
    } else {
        assert(present(readings)[present(front).len() as int] == readings[i]->0);
    }
}

} // verus!
