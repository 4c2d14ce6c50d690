//! The sprint balance reconciler: merges filtered task metadata with the
//! schedule aggregator's totals into one balance entry per task name, sorts
//! the entries for presentation, and computes the summary figures.
use vstd::prelude::*;
use crate::duration::TimeEstimate;
use crate::planner::completed_secs;
use crate::planner::occurrences;
use crate::planner::uncompleted_secs;
use crate::planner::lemma_absent_name_zero;
use crate::planner::BlockView;
use crate::planner::TaskSchedule;
use crate::planner::TimeAllocation;
use crate::task_file::spec_file_stem;
use crate::task_file::TaskFile;
use crate::text::lex_le;
use crate::text::str_eq;
use crate::text::str_le;

verus! {

/// The reconciled balance of one task: whether its metadata names the sprint
/// under report, the externally supplied remaining time (zero without sprint
/// membership), and the time scheduled against it (zero when it never
/// appears in the schedule).
#[derive(Clone, Copy, Debug)]
pub struct TaskTimes {
    pub in_sprint: bool,
    pub remaining_time: TimeEstimate,
    pub uncompleted_time: TimeEstimate,
    pub completed_time: TimeEstimate,
}

/// The mathematical image of a balance entry's figures.
pub ghost struct BalanceView {
    pub in_sprint: bool,
    pub remaining: int,
    pub uncompleted: int,
    pub completed: int,
}

impl View for TaskTimes {
    type V = BalanceView;

    open spec fn view(&self) -> BalanceView {
        BalanceView {
            in_sprint: self.in_sprint,
            remaining: self.remaining_time.spec_seconds(),
            uncompleted: self.uncompleted_time.spec_seconds(),
            completed: self.completed_time.spec_seconds(),
        }
    }
}

/// A metadata record's task name: the file stem of its path.
pub open spec fn spec_meta_name(t: TaskFile) -> Seq<char> {
    spec_file_stem(t.path@)
}

/// A metadata record's remaining time; zero when it carries none.
pub open spec fn spec_meta_remaining(t: TaskFile) -> int {
    match t.properties.time_tracking.remaining {
        Some(d) => d.spec_seconds(),
        None => 0,
    }
}

/// Whether some record in the set carries the task name.
pub open spec fn meta_has_name(ms: Seq<TaskFile>, n: Seq<char>) -> bool {
    exists|i: int| 0 <= i < ms.len() && spec_meta_name(#[trigger] ms[i]) == n
}

/// The remaining time the set assigns to a task name: the last record with
/// that name wins; zero when no record has it.
pub open spec fn meta_remaining_of(ms: Seq<TaskFile>, n: Seq<char>) -> int
    decreases ms.len(),
{
    if ms.len() == 0 {
        0
    } else if spec_meta_name(ms.last()) == n {
        spec_meta_remaining(ms.last())
    } else {
        meta_remaining_of(ms.drop_last(), n)
    }
}

/// The balance figures owed to a task name: sprint membership and remaining
/// time from the metadata, scheduled time from the blocks.
pub open spec fn spec_balance_for(ms: Seq<TaskFile>, blocks: Seq<BlockView>, n: Seq<char>)
    -> BalanceView {
    BalanceView {
        in_sprint: meta_has_name(ms, n),
        remaining: if meta_has_name(ms, n) {
            meta_remaining_of(ms, n)
        } else {
            0
        },
        uncompleted: uncompleted_secs(blocks, n),
        completed: completed_secs(blocks, n),
    }
}

/// The task names of the metadata set, in order of first appearance.
pub open spec fn spec_meta_keys(ms: Seq<TaskFile>) -> Seq<Seq<char>>
    decreases ms.len(),
{
    if ms.len() == 0 {
        Seq::empty()
    } else {
        let rest = spec_meta_keys(ms.drop_last());
        if meta_has_name(ms.drop_last(), spec_meta_name(ms.last())) {
            rest
        } else {
            rest + seq![spec_meta_name(ms.last())]
        }
    }
}

/// The schedule's task names that the metadata set does not carry, in
/// schedule order.
pub open spec fn spec_extra_keys(es: Seq<(String, TimeAllocation)>, ms: Seq<TaskFile>) -> Seq<
    Seq<char>,
>
    decreases es.len(),
{
    if es.len() == 0 {
        Seq::empty()
    } else {
        let rest = spec_extra_keys(es.drop_last(), ms);
        if meta_has_name(ms, es.last().0@) {
            rest
        } else {
            rest + seq![es.last().0@]
        }
    }
}

/// Every task name of the merged report, metadata names first.
pub open spec fn spec_balance_keys(ms: Seq<TaskFile>, es: Seq<(String, TimeAllocation)>) -> Seq<
    Seq<char>,
> {
    spec_meta_keys(ms) + spec_extra_keys(es, ms)
}

/// The key views of an entry list.
pub open spec fn entry_keys(s: Seq<(String, TaskTimes)>) -> Seq<Seq<char>> {
    Seq::new(s.len(), |i: int| s[i].0@)
}

/// The metadata keys are exactly the names the metadata set carries.
pub proof fn lemma_meta_keys_iff(ms: Seq<TaskFile>, n: Seq<char>)
    ensures
        spec_meta_keys(ms).contains(n) <==> meta_has_name(ms, n),
    decreases ms.len(),
{
    if ms.len() > 0 {
        lemma_meta_keys_iff(ms.drop_last(), n);
        let rest = spec_meta_keys(ms.drop_last());
        let nm = spec_meta_name(ms.last());
        if meta_has_name(ms, n) {
            if spec_meta_name(ms.last()) == n {
                if meta_has_name(ms.drop_last(), nm) {
                    assert(spec_meta_keys(ms).contains(n));
                } else {
                    assert(spec_meta_keys(ms)[rest.len() as int] == n);
                    assert(spec_meta_keys(ms).contains(n));
                }
            } else {
                let w = choose|i: int|
                    0 <= i < ms.len() && spec_meta_name(#[trigger] ms[i]) == n;
                assert(spec_meta_name(ms.drop_last()[w]) == n);
                assert(meta_has_name(ms.drop_last(), n));
                let k = choose|i: int| 0 <= i < rest.len() && rest[i] == n;
                assert(spec_meta_keys(ms)[k] == n);
            }
        }
        if spec_meta_keys(ms).contains(n) {
            let k = choose|i: int|
                0 <= i < spec_meta_keys(ms).len() && spec_meta_keys(ms)[i] == n;
            if k < rest.len() {
                assert(rest[k] == n);
                let w = choose|i: int|
                    0 <= i < ms.drop_last().len() && spec_meta_name(
                        #[trigger] ms.drop_last()[i],
                    ) == n;
                assert(spec_meta_name(ms[w]) == n);
            } else {
                assert(spec_meta_name(ms[ms.len() - 1]) == n);
            }
        }
    }
}

/// An extra key is a schedule name outside the metadata set.
pub proof fn lemma_extra_keys_member(
    es: Seq<(String, TimeAllocation)>,
    ms: Seq<TaskFile>,
    n: Seq<char>,
)
    ensures
        spec_extra_keys(es, ms).contains(n) <==> (!meta_has_name(ms, n) && exists|i: int|
            0 <= i < es.len() && (#[trigger] es[i]).0@ == n),
    decreases es.len(),
{
    if es.len() > 0 {
        lemma_extra_keys_member(es.drop_last(), ms, n);
        let rest = spec_extra_keys(es.drop_last(), ms);
        let keys = spec_extra_keys(es, ms);
        if keys.contains(n) {
            let k = choose|i: int| 0 <= i < keys.len() && keys[i] == n;
            if k < rest.len() {
                assert(rest[k] == n);
                assert(rest.contains(n));
                let w = choose|i: int|
                    0 <= i < es.drop_last().len() && (#[trigger] es.drop_last()[i]).0@ == n;
                assert(es[w].0@ == n);
            } else {
                assert(es[es.len() - 1].0@ == n);
            }
        }
        if !meta_has_name(ms, n) && exists|i: int| 0 <= i < es.len() && (#[trigger] es[i]).0@
            == n {
            let w = choose|i: int| 0 <= i < es.len() && (#[trigger] es[i]).0@ == n;
            if w == es.len() - 1 {
                assert(keys[rest.len() as int] == n);
                assert(keys.contains(n));
            } else {
                assert(es.drop_last()[w].0@ == n);
                assert(rest.contains(n));
                let k = choose|i: int| 0 <= i < rest.len() && rest[i] == n;
                assert(keys[k] == n);
            }
        }
    }
}

/// Merges the filtered metadata records with the schedule's totals: one
/// entry per task name, metadata entries first and marked in-sprint with
/// their remaining time, schedule-only entries after them with zero
/// remaining time. Every task name appearing in the metadata set or the
/// schedule appears exactly once; none is dropped.
pub fn balance_entries(sprint_tasks: &Vec<TaskFile>, schedule: &TaskSchedule) -> (r: Vec<
    (String, TaskTimes),
>)
    requires
        schedule.wf(),
    ensures
        entry_keys(r@) == spec_balance_keys(sprint_tasks@, schedule.spec_entries()),
        forall|i: int|
            0 <= i < r@.len() ==> (#[trigger] r@[i]).1@ == spec_balance_for(
                sprint_tasks@,
                schedule.spec_blocks(),
                r@[i].0@,
            ),
        forall|i: int, j: int|
            0 <= i < j < r@.len() ==> (#[trigger] r@[i]).0@ != (#[trigger] r@[j]).0@,
        forall|n: Seq<char>|
            #[trigger] meta_has_name(sprint_tasks@, n) ==> exists|i: int|
                0 <= i < r@.len() && (#[trigger] r@[i]).0@ == n,
        forall|n: Seq<char>|
            #[trigger] occurrences(schedule.spec_blocks(), n) > 0 ==> exists|i: int|
                0 <= i < r@.len() && (#[trigger] r@[i]).0@ == n,
        forall|i: int|
            0 <= i < r@.len() ==> meta_has_name(sprint_tasks@, (#[trigger] r@[i]).0@)
                || occurrences(schedule.spec_blocks(), r@[i].0@) > 0,
{
    let ghost ms = sprint_tasks@;
    let ghost blocks = schedule.spec_blocks();
    let mut entries: Vec<(String, TaskTimes)> = Vec::new();
    let mut mi: usize = 0;
    while mi < sprint_tasks.len()
        invariant
            mi <= ms.len(),
            schedule.wf(),
            ms == sprint_tasks@,
            blocks == schedule.spec_blocks(),
            entry_keys(entries@) == spec_meta_keys(ms.take(mi as int)),
            forall|i: int|
                0 <= i < entries@.len() ==> (#[trigger] entries@[i]).1@ == (BalanceView {
                    in_sprint: true,
                    remaining: meta_remaining_of(ms.take(mi as int), entries@[i].0@),
                    uncompleted: uncompleted_secs(blocks, entries@[i].0@),
                    completed: completed_secs(blocks, entries@[i].0@),
                }),
            forall|i: int, j: int|
                0 <= i < j < entries@.len() ==> (#[trigger] entries@[i]).0@ != (
                #[trigger] entries@[j]).0@,
        decreases ms.len() - mi,
    {
        let task = &sprint_tasks[mi];
        let nm = task.get_name();
        let rem = task.get_remaining_time();
        proof {
            assert(ms.take(mi + 1).drop_last() =~= ms.take(mi as int));
            assert(ms.take(mi + 1).last() == ms[mi as int]);
            assert(nm@ == spec_meta_name(ms[mi as int]));
        }
        let mut k: usize = 0;
        let mut found: bool = false;
        while k < entries.len()
            invariant
                k <= entries@.len(),
                !found ==> forall|x: int| 0 <= x < k ==> (#[trigger] entries@[x]).0@ != nm@,
                found ==> k < entries@.len() && entries@[k as int].0@ == nm@,
            decreases entries@.len() - k, (if found {
                0int
            } else {
                1int
            }),
        {
            if str_eq(entries[k].0.as_str(), nm.as_str()) {
                found = true;
                break ;
            }
            k = k + 1;
        }
        proof {
            lemma_meta_keys_iff(ms.take(mi as int), nm@);
            if found {
                assert(entry_keys(entries@)[k as int] == nm@);
                assert(spec_meta_keys(ms.take(mi as int)).contains(nm@));
            } else {
                if meta_has_name(ms.take(mi as int), nm@) {
                    let w = choose|i: int|
                        0 <= i < spec_meta_keys(ms.take(mi as int)).len() && spec_meta_keys(
                            ms.take(mi as int),
                        )[i] == nm@;
                    assert(entry_keys(entries@)[w] == nm@);
                    assert(entries@[w].0@ == nm@);
                    assert(false);
                }
            }
        }
        let ghost old_entries = entries@;
        if found {
            let pair = entries.remove(k);
            let key = pair.0;
            let times = pair.1;
            let new_times = TaskTimes {
                in_sprint: true,
                remaining_time: rem,
                uncompleted_time: times.uncompleted_time,
                completed_time: times.completed_time,
            };
            entries.insert(k, (key, new_times));
            proof {
                assert(entries@ =~= old_entries.update(k as int, (key, new_times)));
                assert(entry_keys(entries@) =~= entry_keys(old_entries));
                assert(entry_keys(entries@) =~= spec_meta_keys(ms.take(mi + 1)));
                assert forall|i: int| 0 <= i < entries@.len() implies (
                #[trigger] entries@[i]).1@ == (BalanceView {
                    in_sprint: true,
                    remaining: meta_remaining_of(ms.take(mi + 1), entries@[i].0@),
                    uncompleted: uncompleted_secs(blocks, entries@[i].0@),
                    completed: completed_secs(blocks, entries@[i].0@),
                }) by {
                    if i != k {
                        assert(entries@[i] == old_entries[i]);
                        assert(entries@[i].0@ != nm@);
                    }
                }
            }
        } else {
            let alloc = schedule.get_task_time_allocation(nm.as_str());
            let (completed, uncompleted) = match alloc {
                Some(a) => (a.get_completed_time(), a.get_uncompleted_time()),
                None => {
                    proof {
                        lemma_absent_name_zero(blocks, nm@);
                    }
                    (TimeEstimate::zero(), TimeEstimate::zero())
                },
            };
            let new_times = TaskTimes {
                in_sprint: true,
                remaining_time: rem,
                uncompleted_time: uncompleted,
                completed_time: completed,
            };
            let new_pair = (nm, new_times);
            let ghost gp = new_pair;
            entries.push(new_pair);
            proof {
                assert(entries@ =~= old_entries.push(gp));
                assert(entry_keys(entries@) =~= entry_keys(old_entries) + seq![gp.0@]);
                assert(entry_keys(entries@) =~= spec_meta_keys(ms.take(mi + 1)));
                assert forall|i: int| 0 <= i < entries@.len() implies (
                #[trigger] entries@[i]).1@ == (BalanceView {
                    in_sprint: true,
                    remaining: meta_remaining_of(ms.take(mi + 1), entries@[i].0@),
                    uncompleted: uncompleted_secs(blocks, entries@[i].0@),
                    completed: completed_secs(blocks, entries@[i].0@),
                }) by {
                    if i < old_entries.len() {
                        assert(entries@[i] == old_entries[i]);
                        assert(entries@[i].0@ != nm@);
                    }
                }
            }
        }
        mi = mi + 1;
    }
    assert(ms.take(ms.len() as int) =~= ms);
    proof {
        assert forall|i: int| 0 <= i < entries@.len() implies (#[trigger] entries@[i]).1@
            == spec_balance_for(ms, blocks, entries@[i].0@) by {
            let n = entries@[i].0@;
            assert(entry_keys(entries@)[i] == n);
            assert(spec_meta_keys(ms)[i] == n);
            assert(spec_meta_keys(ms).contains(n));
            lemma_meta_keys_iff(ms, n);
        }
        assert(entry_keys(entries@) =~= spec_meta_keys(ms) + spec_extra_keys(
            schedule.spec_entries().take(0),
            ms,
        ));
    }
    let schedule_entries = schedule.iter_time_allocations();
    let ghost es = schedule.spec_entries();
    let n_meta = entries.len();
    let mut si: usize = 0;
    while si < schedule_entries.len()
        invariant
            si <= es.len(),
            schedule.wf(),
            ms == sprint_tasks@,
            blocks == schedule.spec_blocks(),
            es == schedule.spec_entries(),
            schedule_entries@ == es,
            entry_keys(entries@) == spec_meta_keys(ms) + spec_extra_keys(
                es.take(si as int),
                ms,
            ),
            forall|i: int|
                0 <= i < entries@.len() ==> (#[trigger] entries@[i]).1@ == spec_balance_for(
                    ms,
                    blocks,
                    entries@[i].0@,
                ),
            forall|i: int, j: int|
                0 <= i < j < entries@.len() ==> (#[trigger] entries@[i]).0@ != (
                #[trigger] entries@[j]).0@,
        decreases es.len() - si,
    {
        let ghost old_entries = entries@;
        let name_ref = &schedule_entries[si].0;
        proof {
            assert(es.take(si + 1).drop_last() =~= es.take(si as int));
            assert(es.take(si + 1).last() == es[si as int]);
        }
        let mut k: usize = 0;
        let mut found: bool = false;
        while k < entries.len()
            invariant
                k <= entries@.len(),
                !found ==> forall|x: int|
                    0 <= x < k ==> (#[trigger] entries@[x]).0@ != es[si as int].0@,
                found ==> k < entries@.len() && entries@[k as int].0@ == es[si as int].0@,
            decreases entries@.len() - k, (if found {
                0int
            } else {
                1int
            }),
        {
            if str_eq(entries[k].0.as_str(), name_ref.as_str()) {
                found = true;
                break ;
            }
            k = k + 1;
        }
        proof {
            lemma_meta_keys_iff(ms, es[si as int].0@);
            lemma_extra_keys_member(es.take(si as int), ms, es[si as int].0@);
            if found {
                assert(entry_keys(entries@)[k as int] == es[si as int].0@);
                if k < spec_meta_keys(ms).len() {
                    assert(spec_meta_keys(ms).contains(es[si as int].0@));
                } else {
                    assert(spec_extra_keys(es.take(si as int), ms)[k - spec_meta_keys(
                        ms,
                    ).len()] == es[si as int].0@);
                    assert(spec_extra_keys(es.take(si as int), ms).contains(es[si as int].0@));
                    let w = choose|i: int|
                        0 <= i < es.take(si as int).len() && (#[trigger] es.take(
                            si as int,
                        )[i]).0@ == es[si as int].0@;
                    assert(es[w].0@ == es[si as int].0@);
                    assert(false);
                }
            } else {
                if meta_has_name(ms, es[si as int].0@) {
                    let w = choose|i: int|
                        0 <= i < spec_meta_keys(ms).len() && spec_meta_keys(ms)[i] == es[
                            si as int].0@;
                    assert(entry_keys(entries@)[w] == es[si as int].0@);
                    assert(entries@[w].0@ == es[si as int].0@);
                    assert(false);
                }
            }
        }
        if !found {
            let alloc = &schedule_entries[si].1;
            let new_times = TaskTimes {
                in_sprint: false,
                remaining_time: TimeEstimate::zero(),
                uncompleted_time: alloc.get_uncompleted_time(),
                completed_time: alloc.get_completed_time(),
            };
            let new_pair = (name_ref.clone(), new_times);
            let ghost gp = new_pair;
            entries.push(new_pair);
            proof {
                assert(entries@ =~= old_entries.push(gp));
                assert(entry_keys(entries@) =~= entry_keys(old_entries) + seq![gp.0@]);
                assert(entry_keys(entries@) =~= spec_meta_keys(ms) + spec_extra_keys(
                    es.take(si + 1),
                    ms,
                ));
                assert forall|i: int| 0 <= i < entries@.len() implies (
                #[trigger] entries@[i]).1@ == spec_balance_for(ms, blocks, entries@[i].0@) by {
                    if i < old_entries.len() {
                        assert(entries@[i] == old_entries[i]);
                    } else {
                        assert(entries@[i].0@ == es[si as int].0@);
                    }
                }
            }
        } else {
            proof {
                assert(entry_keys(entries@) =~= spec_meta_keys(ms) + spec_extra_keys(
                    es.take(si + 1),
                    ms,
                ));
            }
        }
        si = si + 1;
    }
    assert(es.take(es.len() as int) =~= es);
    proof {
        assert forall|n: Seq<char>| #[trigger] meta_has_name(ms, n) implies exists|i: int|
            0 <= i < entries@.len() && (#[trigger] entries@[i]).0@ == n by {
            lemma_meta_keys_iff(ms, n);
            let w = choose|i: int|
                0 <= i < spec_meta_keys(ms).len() && spec_meta_keys(ms)[i] == n;
            assert(entry_keys(entries@)[w] == n);
            assert(entries@[w].0@ == n);
        }
        assert forall|n: Seq<char>| #[trigger] occurrences(blocks, n) > 0 implies exists|i: int|
            0 <= i < entries@.len() && (#[trigger] entries@[i]).0@ == n by {
            let w = choose|i: int|
                0 <= i < es.len() && (#[trigger] es[i]).0@ == n;
            if meta_has_name(ms, n) {
                lemma_meta_keys_iff(ms, n);
                let w2 = choose|i: int|
                    0 <= i < spec_meta_keys(ms).len() && spec_meta_keys(ms)[i] == n;
                assert(entry_keys(entries@)[w2] == n);
                assert(entries@[w2].0@ == n);
            } else {
                lemma_extra_keys_member(es, ms, n);
                assert(spec_extra_keys(es, ms).contains(n));
                let w3 = choose|i: int|
                    0 <= i < spec_extra_keys(es, ms).len() && spec_extra_keys(es, ms)[i] == n;
                assert(entry_keys(entries@)[spec_meta_keys(ms).len() + w3] == n);
                assert(entries@[spec_meta_keys(ms).len() + w3].0@ == n);
            }
        }
        assert forall|i: int| 0 <= i < entries@.len() implies meta_has_name(
            ms,
            (#[trigger] entries@[i]).0@,
        ) || occurrences(blocks, entries@[i].0@) > 0 by {
            let n = entries@[i].0@;
            assert(entry_keys(entries@)[i] == n);
            if i < spec_meta_keys(ms).len() {
                lemma_meta_keys_iff(ms, n);
                assert(spec_meta_keys(ms)[i] == n);
            } else {
                lemma_extra_keys_member(es, ms, n);
                assert(spec_extra_keys(es, ms)[i - spec_meta_keys(ms).len()] == n);
                assert(spec_extra_keys(es, ms).contains(n));
                let w = choose|x: int|
                    0 <= x < es.len() && (#[trigger] es[x]).0@ == n;
                assert(occurrences(blocks, es[w].0@) > 0);
            }
        }
    }
    entries
}

/// Presentation order on balance entries: in-sprint entries first, ordered
/// by ascending remaining time with ties broken by task name; entries
/// outside the sprint after them, ordered by task name.
pub open spec fn bal_le(a: (Seq<char>, BalanceView), b: (Seq<char>, BalanceView)) -> bool {
    if a.1.in_sprint && b.1.in_sprint {
        a.1.remaining < b.1.remaining || (a.1.remaining == b.1.remaining && lex_le(a.0, b.0))
    } else if a.1.in_sprint != b.1.in_sprint {
        a.1.in_sprint
    } else {
        lex_le(a.0, b.0)
    }
}

/// `x` inserted into `s` before the first entry it precedes.
pub open spec fn spec_insert_sorted(
    x: (Seq<char>, BalanceView),
    s: Seq<(Seq<char>, BalanceView)>,
) -> Seq<(Seq<char>, BalanceView)>
    decreases s.len(),
{
    if s.len() == 0 {
        seq![x]
    } else if bal_le(x, s[0]) {
        seq![x] + s
    } else {
        seq![s[0]] + spec_insert_sorted(x, s.drop_first())
    }
}

/// The entries in presentation order: each inserted in turn.
pub open spec fn spec_sort_balance(s: Seq<(Seq<char>, BalanceView)>) -> Seq<
    (Seq<char>, BalanceView),
>
    decreases s.len(),
{
    if s.len() == 0 {
        Seq::empty()
    } else {
        spec_insert_sorted(s.last(), spec_sort_balance(s.drop_last()))
    }
}

/// Adjacent entries stand in presentation order.
pub open spec fn bal_sorted(s: Seq<(Seq<char>, BalanceView)>) -> bool {
    forall|i: int| 0 <= i < s.len() - 1 ==> bal_le(#[trigger] s[i], s[i + 1])
}

proof fn lemma_lex_le_total(a: Seq<char>, b: Seq<char>)
    ensures
        lex_le(a, b) || lex_le(b, a),
    decreases a.len(),
{
    if a.len() > 0 && b.len() > 0 && a[0] == b[0] {
        lemma_lex_le_total(a.drop_first(), b.drop_first());
    }
}

proof fn lemma_bal_le_total(a: (Seq<char>, BalanceView), b: (Seq<char>, BalanceView))
    ensures
        bal_le(a, b) || bal_le(b, a),
{
    lemma_lex_le_total(a.0, b.0);
}

proof fn lemma_insert_sorted_preserves(
    x: (Seq<char>, BalanceView),
    s: Seq<(Seq<char>, BalanceView)>,
)
    requires
        bal_sorted(s),
    ensures
        bal_sorted(spec_insert_sorted(x, s)),
        spec_insert_sorted(x, s).len() == s.len() + 1,
    decreases s.len(),
{
    if s.len() == 0 {
    } else if bal_le(x, s[0]) {
        let r = seq![x] + s;
        assert forall|i: int| 0 <= i < r.len() - 1 implies bal_le(#[trigger] r[i], r[i + 1]) by {
            if i > 0 {
                assert(r[i] == s[i - 1] && r[i + 1] == s[i]);
            }
        }
    } else {
        assert(bal_sorted(s.drop_first())) by {
            assert(forall|i: int|
                0 <= i < s.drop_first().len() - 1 ==> #[trigger] s.drop_first()[i] == s[i + 1]
                    && s.drop_first()[i + 1] == s[i + 2]);
        }
        lemma_insert_sorted_preserves(x, s.drop_first());
        lemma_bal_le_total(x, s[0]);
        let inner = spec_insert_sorted(x, s.drop_first());
        let r = seq![s[0]] + inner;
        assert forall|i: int| 0 <= i < r.len() - 1 implies bal_le(#[trigger] r[i], r[i + 1]) by {
            if i == 0 {
                if s.len() == 1 {
                    assert(inner[0] == x);
                } else if bal_le(x, s.drop_first()[0]) {
                    assert(inner[0] == x);
                } else {
                    assert(inner[0] == s.drop_first()[0]);
                    assert(bal_le(s[0], s[1]));
                }
            } else {
                assert(r[i] == inner[i - 1] && r[i + 1] == inner[i]);
            }
        }
    }
}

/// The sorted entries stand in presentation order.
pub proof fn lemma_sort_balance_sorted(s: Seq<(Seq<char>, BalanceView)>)
    ensures
        bal_sorted(spec_sort_balance(s)),
        spec_sort_balance(s).len() == s.len(),
    decreases s.len(),
{
    if s.len() > 0 {
        lemma_sort_balance_sorted(s.drop_last());
        lemma_insert_sorted_preserves(s.last(), spec_sort_balance(s.drop_last()));
    }
}

/// The entry views of an entry list.
pub open spec fn entry_views(s: Seq<(String, TaskTimes)>) -> Seq<(Seq<char>, BalanceView)> {
    Seq::new(s.len(), |i: int| (s[i].0@, s[i].1@))
}

fn bal_le_exec(a: &(String, TaskTimes), b: &(String, TaskTimes)) -> (r: bool)
    ensures
        r == bal_le((a.0@, a.1@), (b.0@, b.1@)),
{
    if a.1.in_sprint && b.1.in_sprint {
        let ar = a.1.remaining_time.wide_secs();
        let br = b.1.remaining_time.wide_secs();
        ar < br || (ar == br && str_le(a.0.as_str(), b.0.as_str()))
    } else if a.1.in_sprint != b.1.in_sprint {
        a.1.in_sprint
    } else {
        str_le(a.0.as_str(), b.0.as_str())
    }
}

proof fn lemma_insert_sorted_at(
    x: (Seq<char>, BalanceView),
    s: Seq<(Seq<char>, BalanceView)>,
    idx: int,
)
    requires
        0 <= idx <= s.len(),
        forall|j: int| 0 <= j < idx ==> !bal_le(x, #[trigger] s[j]),
        idx < s.len() ==> bal_le(x, s[idx]),
    ensures
        spec_insert_sorted(x, s) == s.take(idx) + seq![x] + s.skip(idx),
    decreases idx,
{
    if idx == 0 {
        if s.len() == 0 {
            assert(spec_insert_sorted(x, s) =~= s.take(0) + seq![x] + s.skip(0));
        } else {
            assert(spec_insert_sorted(x, s) =~= s.take(0) + seq![x] + s.skip(0));
        }
    } else {
        assert(!bal_le(x, s[0]));
        lemma_insert_sorted_at(x, s.drop_first(), idx - 1);
        assert(s.drop_first().take(idx - 1) =~= s.take(idx).drop_first());
        assert(s.drop_first().skip(idx - 1) =~= s.skip(idx));
        assert(seq![s[0]] + (s.drop_first().take(idx - 1) + seq![x] + s.drop_first().skip(idx - 1))
            =~= s.take(idx) + seq![x] + s.skip(idx));
    }
}

/// Sorts balance entries into presentation order.
pub fn sort_balance(entries: Vec<(String, TaskTimes)>) -> (r: Vec<(String, TaskTimes)>)
    ensures
        entry_views(r@) == spec_sort_balance(entry_views(entries@)),
{
    let ghost orig = entries@;
    let mut rest = entries;
    let mut rev: Vec<(String, TaskTimes)> = Vec::new();
    while rest.len() > 0
        invariant
            rest@.len() + rev@.len() == orig.len(),
            rest@ == orig.take(rest@.len() as int),
            forall|i: int| 0 <= i < rev@.len() ==> #[trigger] rev@[i] == orig[orig.len() - 1 - i],
        decreases rest@.len(),
    {
        let t = match rest.pop() {
            Some(t) => t,
            None => {
                proof {
                    assert(false);
                }
                continue ;
            },
        };
        assert(rest@ =~= orig.take(rest@.len() as int));
        rev.push(t);
    }
    let mut out: Vec<(String, TaskTimes)> = Vec::new();
    while rev.len() > 0
        invariant
            rev@.len() <= orig.len(),
            forall|i: int| 0 <= i < rev@.len() ==> #[trigger] rev@[i] == orig[orig.len() - 1 - i],
            entry_views(out@) == spec_sort_balance(
                entry_views(orig.take((orig.len() - rev@.len()) as int)),
            ),
        decreases rev@.len(),
    {
        let ghost k = orig.len() - rev@.len();
        let x = match rev.pop() {
            Some(t) => t,
            None => {
                proof {
                    assert(false);
                }
                continue ;
            },
        };
        assert(x == orig[k as int]);
        let ghost xv = (x.0@, x.1@);
        let ghost sorted_before = entry_views(out@);
        let mut idx: usize = 0;
        while idx < out.len()
            invariant
                idx <= out@.len(),
                sorted_before == entry_views(out@),
                forall|j: int| 0 <= j < idx ==> !bal_le(xv, #[trigger] sorted_before[j]),
            decreases out@.len() - idx,
        {
            if bal_le_exec(&x, &out[idx]) {
                assert(bal_le(xv, sorted_before[idx as int]));
                break ;
            }
            assert(!bal_le(xv, sorted_before[idx as int]));
            idx = idx + 1;
        }
        proof {
            lemma_insert_sorted_at(xv, sorted_before, idx as int);
        }
        let ghost gx = x;
        out.insert(idx, x);
        proof {
            assert(out@ =~= out@.take(idx as int) + seq![gx] + out@.skip(idx + 1));
            assert(entry_views(out@) =~= sorted_before.take(idx as int) + seq![xv]
                + sorted_before.skip(idx as int));
            assert(entry_views(orig.take(k + 1)) =~= entry_views(orig.take(k as int)).push(xv));
            assert(entry_views(orig.take(k + 1)).drop_last() =~= entry_views(orig.take(k as int)));
        }
    }
    assert(orig.take(orig.len() as int) =~= orig);
    out
}

/// One row of the reconciled report.
#[derive(Debug)]
pub struct TaskTimeData {
    pub name: String,
    pub in_sprint: bool,
    pub remaining_time: TimeEstimate,
    pub uncompleted_time: TimeEstimate,
    pub completed_time: TimeEstimate,
}

/// The entry views of a report row list.
pub open spec fn data_views(s: Seq<TaskTimeData>) -> Seq<(Seq<char>, BalanceView)> {
    Seq::new(
        s.len(),
        |i: int|
            (
                s[i].name@,
                BalanceView {
                    in_sprint: s[i].in_sprint,
                    remaining: s[i].remaining_time.spec_seconds(),
                    uncompleted: s[i].uncompleted_time.spec_seconds(),
                    completed: s[i].completed_time.spec_seconds(),
                },
            ),
    )
}

/// The reconciled report: every task name of the metadata set or the
/// schedule, balanced and sorted, as `spec_reconcile` lays it out.
pub open spec fn spec_reconcile(ms: Seq<TaskFile>, schedule: TaskSchedule) -> Seq<
    (Seq<char>, BalanceView),
> {
    let keys = spec_balance_keys(ms, schedule.spec_entries());
    spec_sort_balance(
        Seq::new(
            keys.len(),
            |i: int| (keys[i], spec_balance_for(ms, schedule.spec_blocks(), keys[i])),
        ),
    )
}

/// Reconciliation is deterministic and hides no state: two reports built
/// from the same metadata records and the same schedule agree entry for
/// entry, so running the reconciler twice with identical inputs yields
/// identical output.
pub proof fn lemma_reconcile_deterministic(
    ms: Seq<TaskFile>,
    schedule: TaskSchedule,
    r1: Seq<(Seq<char>, BalanceView)>,
    r2: Seq<(Seq<char>, BalanceView)>,
)
    requires
        r1 == spec_reconcile(ms, schedule),
        r2 == spec_reconcile(ms, schedule),
    ensures
        r1 == r2,
{
}

/// The reconciled sprint report.
#[derive(Debug)]
pub struct SprintTimeBalance {
    pub tasks: Vec<TaskTimeData>,
}

impl SprintTimeBalance {
    /// Merges the filtered metadata with the schedule and sorts the result
    /// for presentation.
    pub fn reconcile(sprint_tasks: &Vec<TaskFile>, schedule: &TaskSchedule) -> (r:
        SprintTimeBalance)
        requires
            schedule.wf(),
        ensures
            data_views(r.tasks@) == spec_reconcile(sprint_tasks@, *schedule),
            bal_sorted(data_views(r.tasks@)),
    {
        let entries = balance_entries(sprint_tasks, schedule);
        proof {
            let keys = spec_balance_keys(sprint_tasks@, schedule.spec_entries());
            assert(entry_views(entries@) =~= Seq::new(
                keys.len(),
                |i: int|
                    (keys[i], spec_balance_for(sprint_tasks@, schedule.spec_blocks(), keys[i])),
            ));
        }
        let sorted = sort_balance(entries);
        let mut tasks: Vec<TaskTimeData> = Vec::new();
        let mut i: usize = 0;
        while i < sorted.len()
            invariant
                i <= sorted@.len(),
                tasks@.len() == i,
                forall|j: int|
                    0 <= j < i ==> data_views(tasks@)[j] == entry_views(sorted@)[j],
            decreases sorted@.len() - i,
        {
            let e = &sorted[i];
            tasks.push(
                TaskTimeData {
                    name: e.0.clone(),
                    in_sprint: e.1.in_sprint,
                    remaining_time: e.1.remaining_time,
                    uncompleted_time: e.1.uncompleted_time,
                    completed_time: e.1.completed_time,
                },
            );
            i = i + 1;
        }
        proof {
            assert(data_views(tasks@) =~= entry_views(sorted@));
            lemma_sort_balance_sorted(entry_views(entries@));
        }
        SprintTimeBalance { tasks }
    }
}

impl TaskTimes {
    /// The time scheduled against the task: completed plus uncompleted.
    pub fn allocated(&self) -> (r: Option<TimeEstimate>)
        ensures
            match r {
                Some(d) => d.spec_seconds() == self@.completed + self@.uncompleted,
                None => !(i128::MIN <= self@.completed + self@.uncompleted <= i128::MAX),
            },
    {
        match self.completed_time.wide_secs().checked_add(self.uncompleted_time.wide_secs()) {
            Some(s) => Some(TimeEstimate::from_wide_secs(s)),
            None => None,
        }
    }

    /// The task's balance: allocated time minus remaining time, rendered
    /// with an explicit sign.
    pub fn diff(&self) -> (r: Option<TimeEstimate>)
        ensures
            match r {
                Some(d) => d.spec_seconds() == self@.completed + self@.uncompleted
                    - self@.remaining,
                None => !(i128::MIN <= self@.completed + self@.uncompleted <= i128::MAX) || !(
                i128::MIN <= self@.completed + self@.uncompleted - self@.remaining <= i128::MAX),
            },
    {
        let alloc = match self.completed_time.wide_secs().checked_add(
            self.uncompleted_time.wide_secs(),
        ) {
            Some(s) => s,
            None => {
                return None;
            },
        };
        match alloc.checked_sub(self.remaining_time.wide_secs()) {
            Some(s) => Some(TimeEstimate::from_wide_secs(s)),
            None => None,
        }
    }
}

/// Total remaining time across in-sprint rows.
pub open spec fn sum_sprint_remaining(s: Seq<TaskTimeData>) -> int
    decreases s.len(),
{
    if s.len() == 0 {
        0
    } else {
        sum_sprint_remaining(s.drop_last()) + if s.last().in_sprint {
            s.last().remaining_time.spec_seconds()
        } else {
            0
        }
    }
}

/// Total allocated time across in-sprint rows.
pub open spec fn sum_sprint_allocated(s: Seq<TaskTimeData>) -> int
    decreases s.len(),
{
    if s.len() == 0 {
        0
    } else {
        sum_sprint_allocated(s.drop_last()) + if s.last().in_sprint {
            s.last().completed_time.spec_seconds() + s.last().uncompleted_time.spec_seconds()
        } else {
            0
        }
    }
}

/// Total allocated time across rows outside the sprint.
pub open spec fn sum_additional_allocated(s: Seq<TaskTimeData>) -> int
    decreases s.len(),
{
    if s.len() == 0 {
        0
    } else {
        sum_additional_allocated(s.drop_last()) + if !s.last().in_sprint {
            s.last().completed_time.spec_seconds() + s.last().uncompleted_time.spec_seconds()
        } else {
            0
        }
    }
}

/// Grand total allocated time across all rows.
pub open spec fn sum_total_allocated(s: Seq<TaskTimeData>) -> int
    decreases s.len(),
{
    if s.len() == 0 {
        0
    } else {
        sum_total_allocated(s.drop_last()) + s.last().completed_time.spec_seconds()
            + s.last().uncompleted_time.spec_seconds()
    }
}

pub open spec fn abs_i(x: int) -> int {
    if x >= 0 {
        x
    } else {
        -x
    }
}

/// An upper bound on the magnitude of every summary figure.
pub open spec fn sum_abs_bound(s: Seq<TaskTimeData>) -> int
    decreases s.len(),
{
    if s.len() == 0 {
        0
    } else {
        sum_abs_bound(s.drop_last()) + abs_i(s.last().remaining_time.spec_seconds()) + abs_i(
            s.last().completed_time.spec_seconds(),
        ) + abs_i(s.last().uncompleted_time.spec_seconds())
    }
}

proof fn lemma_sum_abs_mono(s: Seq<TaskTimeData>, k: int)
    requires
        0 <= k <= s.len(),
    ensures
        0 <= sum_abs_bound(s.take(k)) <= sum_abs_bound(s),
    decreases s.len() - k,
{
    if k == s.len() {
        assert(s.take(k) =~= s);
        lemma_sum_abs_nonneg(s);
    } else {
        lemma_sum_abs_mono(s, k + 1);
        assert(s.take(k + 1).drop_last() =~= s.take(k));
        lemma_sum_abs_nonneg(s.take(k));
    }
}

proof fn lemma_sum_abs_nonneg(s: Seq<TaskTimeData>)
    ensures
        sum_abs_bound(s) >= 0,
    decreases s.len(),
{
    if s.len() > 0 {
        lemma_sum_abs_nonneg(s.drop_last());
    }
}

proof fn lemma_sums_bounded(s: Seq<TaskTimeData>)
    ensures
        abs_i(sum_sprint_remaining(s)) <= sum_abs_bound(s),
        abs_i(sum_sprint_allocated(s)) <= sum_abs_bound(s),
        abs_i(sum_additional_allocated(s)) <= sum_abs_bound(s),
        abs_i(sum_total_allocated(s)) <= sum_abs_bound(s),
    decreases s.len(),
{
    if s.len() > 0 {
        lemma_sums_bounded(s.drop_last());
    }
}

/// The four summary figures of a report: remaining and allocated time across
/// in-sprint rows, allocated time across the other rows, and the grand total
/// of allocated time.
#[derive(Clone, Copy, Debug)]
pub struct BalanceSummary {
    pub sprint_remaining: TimeEstimate,
    pub sprint_allocated: TimeEstimate,
    pub additional_allocated: TimeEstimate,
    pub total_allocated: TimeEstimate,
}

impl BalanceSummary {
    /// The sprint's balance: allocated minus remaining, rendered with an
    /// explicit sign.
    pub fn sprint_diff(&self) -> (r: Option<TimeEstimate>)
        ensures
            match r {
                Some(d) => d.spec_seconds() == self.sprint_allocated.spec_seconds()
                    - self.sprint_remaining.spec_seconds(),
                None => !(i128::MIN <= self.sprint_allocated.spec_seconds()
                    - self.sprint_remaining.spec_seconds() <= i128::MAX),
            },
    {
        match self.sprint_allocated.wide_secs().checked_sub(self.sprint_remaining.wide_secs()) {
            Some(s) => Some(TimeEstimate::from_wide_secs(s)),
            None => None,
        }
    }
}

impl SprintTimeBalance {
    /// Computes the four summary figures; owed whenever the magnitudes of
    /// the report's durations sum within the machine's range.
    pub fn summary(&self) -> (r: Option<BalanceSummary>)
        ensures
            match r {
                Some(sm) => sm.sprint_remaining.spec_seconds() == sum_sprint_remaining(self.tasks@)
                    && sm.sprint_allocated.spec_seconds() == sum_sprint_allocated(self.tasks@)
                    && sm.additional_allocated.spec_seconds() == sum_additional_allocated(
                    self.tasks@,
                ) && sm.total_allocated.spec_seconds() == sum_total_allocated(self.tasks@),
                None => sum_abs_bound(self.tasks@) > i128::MAX,
            },
    {
        let ghost s = self.tasks@;
        let mut remaining: i128 = 0;
        let mut sprint_alloc: i128 = 0;
        let mut additional_alloc: i128 = 0;
        let mut total_alloc: i128 = 0;
        let mut i: usize = 0;
        while i < self.tasks.len()
            invariant
                i <= s.len(),
                s == self.tasks@,
                remaining == sum_sprint_remaining(s.take(i as int)),
                sprint_alloc == sum_sprint_allocated(s.take(i as int)),
                additional_alloc == sum_additional_allocated(s.take(i as int)),
                total_alloc == sum_total_allocated(s.take(i as int)),
            decreases s.len() - i,
        {
            let t = &self.tasks[i];
            proof {
                assert(s.take(i + 1).drop_last() =~= s.take(i as int));
                assert(s.take(i + 1).last() == s[i as int]);
                lemma_sums_bounded(s.take(i as int));
                lemma_sums_bounded(s.take(i + 1));
                lemma_sum_abs_mono(s, i + 1);
            }
            let rem = t.remaining_time.wide_secs();
            let com = t.completed_time.wide_secs();
            let unc = t.uncompleted_time.wide_secs();
            let alloc: i128 = match com.checked_add(unc) {
                Some(a) => a,
                None => {
                    return None;
                },
            };
            if t.in_sprint {
                remaining = match remaining.checked_add(rem) {
                    Some(a) => a,
                    None => {
                        return None;
                    },
                };
                sprint_alloc = match sprint_alloc.checked_add(alloc) {
                    Some(a) => a,
                    None => {
                        return None;
                    },
                };
            } else {
                additional_alloc = match additional_alloc.checked_add(alloc) {
                    Some(a) => a,
                    None => {
                        return None;
                    },
                };
            }
            total_alloc = match total_alloc.checked_add(alloc) {
                Some(a) => a,
                None => {
                    return None;
                },
            };
            i = i + 1;
        }
        assert(s.take(s.len() as int) =~= s);
        Some(
            BalanceSummary {
                sprint_remaining: TimeEstimate::from_wide_secs(remaining),
                sprint_allocated: TimeEstimate::from_wide_secs(sprint_alloc),
                additional_allocated: TimeEstimate::from_wide_secs(additional_alloc),
                total_allocated: TimeEstimate::from_wide_secs(total_alloc),
            },
        )
    }
}

} // verus!
