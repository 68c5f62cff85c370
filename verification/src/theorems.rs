//! What holds of every scheduling run: the order in which first come first
//! serve finishes its processes, the bound that round robin keeps on its
//! timer, and the state in which a finished run leaves the scheduler.
use crate::scheduler::{Discipline, Process, SchedulerState};
use crate::scheduler::lemma_tick_wf;
use crate::simulation::{
    accounted, arrivals_at, arrives_apart_from, arrives_at, completions, distinct_pids, find_pid,
    finish_time, is_copy_of, is_finish_time, lemma_find_distinct, lemma_finish_time_unique,
    lemma_pending_split, lemma_tick_accounted, outcome, pending_at, queue_accounted, report,
    state_at, OutputProcessEntry,
};
use vstd::multiset::Multiset;
use vstd::prelude::*;
use vstd::seq_lib::{lemma_multiset_commutative, to_multiset_build, to_multiset_len, to_multiset_remove};

verus! {

/// The processes that have joined the scheduler before tick `t`, in the
/// order in which they joined: by arrival, and in workload order among
/// those that arrive together.
pub open spec fn admitted_until(ps: Seq<Process>, t: nat) -> Seq<Process>
    decreases t,
{
    if t == 0 {
        Seq::empty()
    } else {
        admitted_until(ps, (t - 1) as nat) + arrivals_at(ps, (t - 1) as nat)
    }
}

/// The pids of the processes, in their order.
pub open spec fn pids_of(processes: Seq<Process>) -> Seq<u32> {
    Seq::new(processes.len(), |i: int| processes[i].pid)
}

/// The pids of the entries, in their order.
pub open spec fn entry_pids(entries: Seq<OutputProcessEntry>) -> Seq<u32> {
    Seq::new(entries.len(), |i: int| entries[i].pid)
}

/// Looking up a pid finds a process with that pid.
pub proof fn lemma_find_pid(ps: Seq<Process>, pid: u32)
    ensures
        find_pid(ps, pid) matches Some(p) ==> p.pid == pid && ps.contains(p),
        report(ps, pid, 0).pid == pid,
    decreases ps.len(),
{
    if ps.len() > 0 {
        if ps[0].pid != pid {
            lemma_find_pid(ps.drop_first(), pid);
            if find_pid(ps, pid) is Some {
                let p = find_pid(ps, pid)->0;
                let i = choose|i: int| 0 <= i < ps.drop_first().len() && ps.drop_first()[i] == p;
                assert(ps[i + 1] == p);
            }
        } else {
            assert(ps[0] == find_pid(ps, pid)->0);
        }
    }
}

/// Every process that has joined is a process of the workload and arrived
/// before tick `t`, and the processes stand in the order of their arrival.
pub proof fn lemma_admitted_sorted(ps: Seq<Process>, t: nat)
    ensures
        forall|i: int|
            0 <= i < admitted_until(ps, t).len() ==> ps.contains(#[trigger] admitted_until(ps, t)[i])
                && admitted_until(ps, t)[i].arrival < t,
        forall|i: int, j: int|
            0 <= i <= j < admitted_until(ps, t).len() ==> admitted_until(ps, t)[i].arrival
                <= admitted_until(ps, t)[j].arrival,
    decreases t,
{
    if t > 0 {
        let u = (t - 1) as nat;
        lemma_admitted_sorted(ps, u);
        let before = admitted_until(ps, u);
        let now = arrivals_at(ps, u);
        assert forall|k: int| 0 <= k < now.len() implies ps.contains(#[trigger] now[k])
            && now[k].arrival == u by {
            ps.lemma_filter_pred(arrives_at(u), k);
            assert(now.contains(now[k]));
            ps.lemma_filter_contains_rev(arrives_at(u), now[k]);
        }
        assert forall|i: int| 0 <= i < admitted_until(ps, t).len() implies ps.contains(
            #[trigger] admitted_until(ps, t)[i],
        ) && admitted_until(ps, t)[i].arrival < t by {
            if i < before.len() {
                assert(admitted_until(ps, t)[i] == before[i]);
            } else {
                assert(admitted_until(ps, t)[i] == now[i - before.len()]);
            }
        }
        assert forall|i: int, j: int| 0 <= i <= j < admitted_until(ps, t).len() implies
            admitted_until(ps, t)[i].arrival <= admitted_until(ps, t)[j].arrival by {
            if j < before.len() {
                assert(admitted_until(ps, t)[i] == before[i]);
                assert(admitted_until(ps, t)[j] == before[j]);
            } else if i < before.len() {
                assert(admitted_until(ps, t)[i] == before[i]);
                assert(admitted_until(ps, t)[j] == now[j - before.len()]);
            } else {
                assert(admitted_until(ps, t)[i] == now[i - before.len()]);
                assert(admitted_until(ps, t)[j] == now[j - before.len()]);
            }
        }
    }
}

/// The processes that are there when the clock starts are the first to
/// join, in workload order.
pub proof fn lemma_admitted_from_start(ps: Seq<Process>, t: nat)
    requires
        t >= 1,
    ensures
        arrivals_at(ps, 0).len() <= admitted_until(ps, t).len(),
        admitted_until(ps, t).take(arrivals_at(ps, 0).len() as int) == arrivals_at(ps, 0),
    decreases t,
{
    if t == 1 {
        assert(admitted_until(ps, 0).len() == 0);
        assert(admitted_until(ps, 1) == arrivals_at(ps, 0));
        assert(admitted_until(ps, 1).take(arrivals_at(ps, 0).len() as int) == admitted_until(
            ps,
            1,
        ));
    } else {
        lemma_admitted_from_start(ps, (t - 1) as nat);
        let n = arrivals_at(ps, 0).len() as int;
        assert(admitted_until(ps, t).take(n) == admitted_until(ps, (t - 1) as nat).take(n));
    }
}

/// Under first come first serve, the processes finished so far followed by
/// those in the queue are the processes that have joined, in the order in
/// which they joined: no process overtakes another.
pub proof fn lemma_first_come_first_served(ps: Seq<Process>, t: nat)
    ensures
        ({
            let init = SchedulerState::idle(Discipline::FirstComeFirstServe);
            entry_pids(completions(init, ps, t)) + pids_of(state_at(init, ps, t).queue) == pids_of(
                admitted_until(ps, t),
            )
        }),
        state_at(
            SchedulerState::idle(Discipline::FirstComeFirstServe),
            ps,
            t,
        ).discipline is FirstComeFirstServe,
    decreases t,
{
    let init = SchedulerState::idle(Discipline::FirstComeFirstServe);
    if t == 0 {
        assert(entry_pids(completions(init, ps, 0)) + pids_of(init.queue) =~= pids_of(
            admitted_until(ps, 0),
        ));
    } else {
        let u = (t - 1) as nat;
        lemma_first_come_first_served(ps, u);
        let s = state_at(init, ps, u);
        let arrivals = arrivals_at(ps, u);
        let settled = s.settle();
        let ran = settled.run();
        let next = s.tick(arrivals);
        let done = entry_pids(completions(init, ps, u));
        assert(pids_of(ran.queue) =~= pids_of(settled.queue));
        assert(pids_of(next.queue) =~= pids_of(ran.queue) + pids_of(arrivals));
        assert(pids_of(admitted_until(ps, t)) =~= pids_of(admitted_until(ps, u)) + pids_of(
            arrivals,
        ));
        match s.completed() {
            Some(pid) => {
                lemma_find_pid(ps, pid);
                assert(report(ps, pid, t).pid == pid);
                assert(entry_pids(completions(init, ps, t)) =~= done.push(pid));
                assert(pids_of(settled.queue) =~= pids_of(s.queue).drop_first());
                assert(done.push(pid) + pids_of(s.queue).drop_first() =~= done + pids_of(s.queue));
            },
            None => {
                assert(settled == s);
            },
        }
        assert(entry_pids(completions(init, ps, t)) + pids_of(next.queue) =~= (done + pids_of(
            s.queue,
        )) + pids_of(arrivals));
    }
}

/// Every member of the queue of a run from an idle scheduler is a working
/// copy of a process of the workload.
pub proof fn lemma_run_accounted(init: SchedulerState, ps: Seq<Process>, t: nat)
    requires
        init.is_idle(),
    ensures
        queue_accounted(ps, state_at(init, ps, t).queue, t),
    decreases t,
{
    if t > 0 {
        lemma_run_accounted(init, ps, (t - 1) as nat);
        lemma_tick_accounted(ps, state_at(init, ps, (t - 1) as nat), (t - 1) as nat);
    }
}

/// Every entry that a run from an idle scheduler reports stands for a
/// process of the workload, with that process's arrival and burst; its
/// turnaround is the time from the arrival to the tick before the report,
/// and its waiting time is the turnaround less the burst. The turnaround is
/// never shorter than the burst. This holds as long as the clock fits `u32`.
pub proof fn lemma_entries_measured(init: SchedulerState, ps: Seq<Process>, t: nat)
    requires
        init.is_idle(),
        distinct_pids(ps),
        t <= u32::MAX,
    ensures
        forall|i: int|
            0 <= i < completions(init, ps, t).len() ==> {
                let entry = #[trigger] completions(init, ps, t)[i];
                &&& ps.contains(
                    Process { pid: entry.pid, arrival: entry.arrival, burst: entry.burst },
                )
                &&& entry.waiting == entry.turnaround - entry.burst
                &&& entry.arrival + entry.turnaround + 2 <= t
            },
    decreases t,
{
    if t > 0 {
        let u = (t - 1) as nat;
        lemma_entries_measured(init, ps, u);
        let s = state_at(init, ps, u);
        let earlier = completions(init, ps, u);
        match s.completed() {
            Some(pid) => {
                lemma_run_accounted(init, ps, u);
                assert(accounted(ps, s.queue[0], u));
                let k = choose|k: int| 0 <= k < ps.len() && is_copy_of(#[trigger] ps[k], s.queue[0], u);
                lemma_find_distinct(ps, k);
                let entry = report(ps, pid, t);
                assert(entry == OutputProcessEntry::metrics(ps[k], t));
                assert(ps[k] == Process {
                    pid: entry.pid,
                    arrival: entry.arrival,
                    burst: entry.burst,
                });
                assert forall|i: int| 0 <= i < completions(init, ps, t).len() implies {
                    let e = #[trigger] completions(init, ps, t)[i];
                    &&& ps.contains(Process { pid: e.pid, arrival: e.arrival, burst: e.burst })
                    &&& e.waiting == e.turnaround - e.burst
                    &&& e.arrival + e.turnaround + 2 <= t
                } by {
                    if i < earlier.len() {
                        assert(completions(init, ps, t)[i] == earlier[i]);
                    }
                }
            },
            None => {},
        }
    }
}

/// Under first come first serve, a finished run has reported the processes
/// in the order in which they joined: the `i`-th entry stands for the `i`-th
/// process to join. So a process that arrives before another finishes before
/// it, and the processes that are there at the start finish in workload
/// order.
pub proof fn lemma_first_come_first_serve_order(ps: Seq<Process>, t: nat)
    requires
        distinct_pids(ps),
        is_finish_time(SchedulerState::idle(Discipline::FirstComeFirstServe), ps, t),
        t <= u32::MAX,
    ensures
        ({
            let entries = outcome(SchedulerState::idle(Discipline::FirstComeFirstServe), ps);
            let joined = admitted_until(ps, t);
            &&& entries.len() == joined.len()
            &&& forall|i: int|
                0 <= i < entries.len() ==> {
                    &&& (#[trigger] entries[i]).pid == joined[i].pid
                    &&& entries[i].arrival == joined[i].arrival
                    &&& entries[i].burst == joined[i].burst
                }
            &&& forall|i: int, j: int|
                0 <= i <= j < entries.len() ==> entries[i].arrival <= entries[j].arrival
            &&& arrivals_at(ps, 0).len() <= entries.len()
            &&& forall|i: int|
                0 <= i < arrivals_at(ps, 0).len() ==> (#[trigger] entries[i]).pid == arrivals_at(
                    ps,
                    0,
                )[i].pid
        }),
{
    let init = SchedulerState::idle(Discipline::FirstComeFirstServe);
    lemma_finish_time_unique(init, ps, t);
    if t == 0 {
        // the run is over at once, so the workload is empty
        lemma_pending_split(ps, 0);
        ps.lemma_filter_len(arrives_at(0));
    } else {
        lemma_admitted_from_start(ps, t);
    }
    assert forall|i: int| 0 <= i < arrivals_at(ps, 0).len() implies admitted_until(ps, t)[i]
        == #[trigger] arrivals_at(ps, 0)[i] by {
        assert(admitted_until(ps, t).take(arrivals_at(ps, 0).len() as int)[i] == admitted_until(
            ps,
            t,
        )[i]);
    }
    let entries = completions(init, ps, t);
    let joined = admitted_until(ps, t);
    lemma_first_come_first_served(ps, t);
    assert(pids_of(state_at(init, ps, t).queue).len() == 0);
    assert(entry_pids(entries).len() == pids_of(joined).len());
    lemma_entries_measured(init, ps, t);
    lemma_admitted_sorted(ps, t);
    assert forall|i: int| 0 <= i < entries.len() implies {
        &&& (#[trigger] entries[i]).pid == joined[i].pid
        &&& entries[i].arrival == joined[i].arrival
        &&& entries[i].burst == joined[i].burst
    } by {
        assert(entry_pids(entries)[i] == (entry_pids(entries) + pids_of(
            state_at(init, ps, t).queue,
        ))[i]);
        assert(pids_of(joined)[i] == joined[i].pid);
        let p = Process { pid: entries[i].pid, arrival: entries[i].arrival, burst: entries[i].burst };
        assert(ps.contains(p));
        assert(ps.contains(joined[i]));
        let a = choose|a: int| 0 <= a < ps.len() && ps[a] == p;
        let b = choose|b: int| 0 <= b < ps.len() && ps[b] == joined[i];
        assert(a == b);
    }
}

/// The pids of a sequence as a multiset.
pub open spec fn pid_bag(processes: Seq<Process>) -> Multiset<u32> {
    pids_of(processes).to_multiset()
}

/// The arrivals of one tick and the other processes make up the whole, each
/// pid as often as it stands there.
proof fn lemma_split_bag(ps: Seq<Process>, t: nat)
    ensures
        pid_bag(ps.filter(arrives_at(t))).add(pid_bag(ps.filter(arrives_apart_from(t)))) == pid_bag(
            ps,
        ),
    decreases ps.len(),
{
    broadcast use vstd::multiset::group_multiset_axioms, vstd::seq_lib::group_to_multiset_ensures;

    reveal(Seq::filter);
    if ps.len() == 0 {
        assert(pid_bag(ps.filter(arrives_at(t))).add(pid_bag(ps.filter(arrives_apart_from(t))))
            =~= pid_bag(ps));
    } else {
        let front = ps.drop_last();
        let p = ps.last();
        assert(ps == front.push(p));
        lemma_split_bag(front, t);
        front.lemma_filter_push(p, arrives_at(t));
        front.lemma_filter_push(p, arrives_apart_from(t));
        let here = front.filter(arrives_at(t));
        let apart = front.filter(arrives_apart_from(t));
        assert(pids_of(front.push(p)) == pids_of(front).push(p.pid));
        to_multiset_build(pids_of(front), p.pid);
        if arrives_at(t)(p) {
            assert(pids_of(here.push(p)) == pids_of(here).push(p.pid));
            to_multiset_build(pids_of(here), p.pid);
        } else {
            assert(pids_of(apart.push(p)) == pids_of(apart).push(p.pid));
            to_multiset_build(pids_of(apart), p.pid);
        }
        assert(pid_bag(ps.filter(arrives_at(t))).add(pid_bag(ps.filter(arrives_apart_from(t))))
            =~= pid_bag(ps));
    }
}

/// The processes that have joined and those that are pending make up the
/// workload.
pub proof fn lemma_joined_and_pending(ps: Seq<Process>, t: nat)
    ensures
        pid_bag(admitted_until(ps, t)).add(pid_bag(pending_at(ps, t))) == pid_bag(ps),
    decreases t,
{
    broadcast use vstd::multiset::group_multiset_axioms, vstd::seq_lib::group_to_multiset_ensures;

    if t == 0 {
        lemma_pending_split(ps, 0);
        assert(pids_of(admitted_until(ps, 0)) =~= Seq::<u32>::empty());
        assert(pid_bag(admitted_until(ps, 0)).add(pid_bag(pending_at(ps, 0))) =~= pid_bag(ps));
    } else {
        let u = (t - 1) as nat;
        lemma_joined_and_pending(ps, u);
        lemma_pending_split(ps, u);
        lemma_split_bag(pending_at(ps, u), u);
        assert(pids_of(admitted_until(ps, t)) =~= pids_of(admitted_until(ps, u)) + pids_of(
            arrivals_at(ps, u),
        ));
        lemma_multiset_commutative(pids_of(admitted_until(ps, u)), pids_of(arrivals_at(ps, u)));
        assert(pid_bag(admitted_until(ps, t)).add(pid_bag(pending_at(ps, t))) =~= pid_bag(ps));
    }
}

/// Under either discipline no process is lost and none is made up: the
/// processes reported so far and those in the queue are the processes that
/// have joined, each pid as often as it has joined.
pub proof fn lemma_processes_conserved(init: SchedulerState, ps: Seq<Process>, t: nat)
    requires
        init.is_idle(),
    ensures
        entry_pids(completions(init, ps, t)).to_multiset().add(
            pid_bag(state_at(init, ps, t).queue),
        ) == pid_bag(admitted_until(ps, t)),
    decreases t,
{
    broadcast use vstd::multiset::group_multiset_axioms, vstd::seq_lib::group_to_multiset_ensures;

    if t == 0 {
        assert(entry_pids(completions(init, ps, 0)) =~= Seq::<u32>::empty());
        assert(pids_of(init.queue) =~= Seq::<u32>::empty());
        assert(pids_of(admitted_until(ps, 0)) =~= Seq::<u32>::empty());
    } else {
        let u = (t - 1) as nat;
        lemma_processes_conserved(init, ps, u);
        let s = state_at(init, ps, u);
        let arrivals = arrivals_at(ps, u);
        let settled = s.settle();
        let ran = settled.run();
        let next = s.tick(arrivals);
        let done = entry_pids(completions(init, ps, u));
        let queue = pids_of(s.queue);
        assert(pids_of(ran.queue) =~= pids_of(settled.queue));
        assert(pids_of(next.queue) =~= pids_of(ran.queue) + pids_of(arrivals));
        lemma_multiset_commutative(pids_of(ran.queue), pids_of(arrivals));
        assert(pids_of(admitted_until(ps, t)) =~= pids_of(admitted_until(ps, u)) + pids_of(
            arrivals,
        ));
        lemma_multiset_commutative(pids_of(admitted_until(ps, u)), pids_of(arrivals));
        if s.queue.len() > 0 {
            assert(pids_of(s.queue.drop_first()) =~= queue.remove(0));
            to_multiset_remove(queue, 0);
        }
        match s.completed() {
            Some(pid) => {
                lemma_find_pid(ps, pid);
                assert(entry_pids(completions(init, ps, t)) =~= done.push(pid));
                to_multiset_build(done, pid);
            },
            None => {
                if s.rotates() {
                    assert(pids_of(settled.queue) =~= queue.remove(0).push(queue[0]));
                    to_multiset_build(queue.remove(0), queue[0]);
                }
            },
        }
        assert(entry_pids(completions(init, ps, t)).to_multiset().add(pid_bag(next.queue))
            =~= pid_bag(admitted_until(ps, t)));
    }
}

/// A finished run has reported every process of the workload, and each as
/// often as it stands in the workload: once, where the pids are distinct.
pub proof fn lemma_everyone_reported(init: SchedulerState, ps: Seq<Process>)
    requires
        init.is_idle(),
        is_finish_time(init, ps, finish_time(init, ps)),
    ensures
        entry_pids(outcome(init, ps)).to_multiset() == pid_bag(ps),
        outcome(init, ps).len() == ps.len(),
{
    broadcast use vstd::multiset::group_multiset_axioms, vstd::seq_lib::group_to_multiset_ensures;

    let t = finish_time(init, ps);
    lemma_processes_conserved(init, ps, t);
    lemma_joined_and_pending(ps, t);
    assert(pids_of(state_at(init, ps, t).queue) =~= Seq::<u32>::empty());
    assert(pids_of(pending_at(ps, t)) =~= Seq::<u32>::empty());
    assert(entry_pids(outcome(init, ps)).to_multiset() =~= pid_bag(ps));
    to_multiset_len(entry_pids(outcome(init, ps)));
    to_multiset_len(pids_of(ps));
}

/// In a run of a workload with distinct pids no pid stands twice in the
/// ready queue.
pub proof fn lemma_queue_pids_distinct(init: SchedulerState, ps: Seq<Process>, t: nat)
    requires
        init.is_idle(),
        distinct_pids(ps),
    ensures
        pids_of(state_at(init, ps, t).queue).no_duplicates(),
{
    broadcast use vstd::multiset::group_multiset_axioms, vstd::seq_lib::group_to_multiset_ensures;

    let queue = pids_of(state_at(init, ps, t).queue);
    lemma_processes_conserved(init, ps, t);
    lemma_joined_and_pending(ps, t);
    assert(pids_of(ps).no_duplicates()) by {
        assert forall|i: int, j: int| 0 <= i < ps.len() && 0 <= j < ps.len() && i != j implies pids_of(
            ps,
        )[i] != pids_of(ps)[j] by {
            if i < j {
                assert(ps[i].pid != ps[j].pid);
            } else {
                assert(ps[j].pid != ps[i].pid);
            }
        }
    }
    pids_of(ps).lemma_multiset_has_no_duplicates();
    assert forall|x: u32| queue.to_multiset().contains(x) implies queue.to_multiset().count(x)
        == 1 by {
        assert(pid_bag(ps).count(x) >= queue.to_multiset().count(x));
        assert(pid_bag(ps).contains(x));
    }
    queue.lemma_multiset_has_no_duplicates_conv();
}

/// Round robin with a quantum of at least 1 never lets the timer pass the
/// quantum, so no process runs for more than the quantum in a row. A tick
/// that retires or rotates the head starts the timer again: the process
/// that takes over has been charged 1 if it ran and 0 if not. Any other tick
/// charges the head that it runs with one more.
pub proof fn lemma_round_robin_quantum(quantum: nat, s: SchedulerState, arrivals: Seq<Process>)
    requires
        s.discipline == (Discipline::RoundRobin { quantum }),
        quantum >= 1,
        s.quantum_timer <= quantum,
    ensures
        s.tick(arrivals).discipline == s.discipline,
        s.tick(arrivals).quantum_timer <= quantum,
        s.completed() is Some || s.rotates() ==> s.tick(arrivals).quantum_timer == (if s.settle().head_runs() {
            1nat
        } else {
            0nat
        }),
        s.rotates() <==> s.queue.len() > 0 && s.queue[0].burst > 0 && s.quantum_timer == quantum,
        !(s.completed() is Some || s.rotates()) && s.head_runs() ==> s.tick(
            arrivals,
        ).quantum_timer == s.quantum_timer + 1 && s.tick(arrivals).queue[0] == s.queue[0].worked(),
{
}

/// In a round robin run from an idle scheduler the timer never passes the
/// quantum.
pub proof fn lemma_round_robin_run(quantum: nat, ps: Seq<Process>, t: nat)
    requires
        quantum >= 1,
    ensures
        state_at(SchedulerState::idle(Discipline::RoundRobin { quantum }), ps, t).quantum_timer
            <= quantum,
        state_at(SchedulerState::idle(Discipline::RoundRobin { quantum }), ps, t).discipline
            == (Discipline::RoundRobin { quantum }),
    decreases t,
{
    if t > 0 {
        let init = SchedulerState::idle(Discipline::RoundRobin { quantum });
        lemma_round_robin_run(quantum, ps, (t - 1) as nat);
        lemma_round_robin_quantum(
            quantum,
            state_at(init, ps, (t - 1) as nat),
            arrivals_at(ps, (t - 1) as nat),
        );
    }
}

/// A run keeps the state well formed.
pub proof fn lemma_run_wf(init: SchedulerState, ps: Seq<Process>, t: nat)
    requires
        init.wf(),
    ensures
        state_at(init, ps, t).wf(),
        state_at(init, ps, t).discipline == init.discipline,
    decreases t,
{
    if t > 0 {
        lemma_run_wf(init, ps, (t - 1) as nat);
        lemma_tick_wf(
            state_at(init, ps, (t - 1) as nat),
            arrivals_at(ps, (t - 1) as nat),
        );
    }
}

/// A finished run leaves the scheduler as it found it, idle. So a second run
/// of the same workload starts from the same state and reports the same
/// entries as the first.
pub proof fn lemma_finished_run_is_idle(init: SchedulerState, ps: Seq<Process>)
    requires
        init.wf(),
        init.is_idle(),
        is_finish_time(init, ps, finish_time(init, ps)),
    ensures
        state_at(init, ps, finish_time(init, ps)) == init,
        outcome(state_at(init, ps, finish_time(init, ps)), ps) == outcome(init, ps),
{
    let t = finish_time(init, ps);
    lemma_run_wf(init, ps, t);
    assert(state_at(init, ps, t).queue =~= init.queue);
}

} // verus!
