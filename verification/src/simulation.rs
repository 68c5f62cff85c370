//! The scheduling run: a clock that starts at 0, feeds each process to the
//! scheduler at the tick of its arrival, and measures every process that the
//! scheduler reports as finished.
//!
//! The run is first defined as mathematics ([`state_at`], [`completions`],
//! [`outcome`], [`process_tables`]); [`run`] is the executable run, proved
//! equal to it.
use crate::scheduler::{process_table, table_row, Cpu, Process, SchedulerState};
use vstd::prelude::*;

verus! {

/// What a run reports of one finished process.
#[derive(Copy, Clone, Debug, PartialEq, Eq, Structural)]
pub struct OutputProcessEntry {
    pub pid: u32,
    pub arrival: u32,
    pub burst: u32,
    /// Ticks from arrival to completion.
    pub turnaround: u32,
    /// Ticks spent ready but not running.
    pub waiting: u32,
}

impl OutputProcessEntry {
    /// The metrics of `process` when the clock shows `clock` after the tick
    /// that reported it: the report comes one tick after the last unit of
    /// work, and the clock has already moved past the reporting tick.
    pub open spec fn metrics(process: Process, clock: nat) -> OutputProcessEntry {
        let turnaround = clock - 2 - process.arrival;
        OutputProcessEntry {
            pid: process.pid,
            arrival: process.arrival,
            burst: process.burst,
            turnaround: turnaround as u32,
            waiting: (turnaround - process.burst) as u32,
        }
    }

    /// Measures `process`, reported as finished when the clock shows `clock`.
    pub fn measure(process: Process, clock: u32) -> (entry: OutputProcessEntry)
        requires
            process.arrival + process.burst + 2 <= clock,
        ensures
            entry == Self::metrics(process, clock as nat),
            entry.waiting == entry.turnaround - entry.burst,
            entry.turnaround == clock - 2 - process.arrival,
    {
        let turnaround = (clock - 2) - process.arrival;
        OutputProcessEntry {
            pid: process.pid,
            arrival: process.arrival,
            burst: process.burst,
            turnaround,
            waiting: turnaround - process.burst,
        }
    }
}

/// The predicate "arrives at tick `t`".
pub open spec fn arrives_at(t: nat) -> spec_fn(Process) -> bool {
    |p: Process| p.arrival == t
}

/// The predicate "arrives at another tick than `t`".
pub open spec fn arrives_apart_from(t: nat) -> spec_fn(Process) -> bool {
    |p: Process| p.arrival != t
}

/// The predicate "arrives at tick `t` or later".
pub open spec fn arrives_from(t: nat) -> spec_fn(Process) -> bool {
    |p: Process| p.arrival >= t
}

/// The processes that arrive at tick `t`, in workload order.
pub open spec fn arrivals_at(ps: Seq<Process>, t: nat) -> Seq<Process> {
    ps.filter(arrives_at(t))
}

/// The processes that have not arrived before tick `t`, in workload order.
pub open spec fn pending_at(ps: Seq<Process>, t: nat) -> Seq<Process> {
    ps.filter(arrives_from(t))
}

/// No two processes of the workload share a pid.
pub open spec fn distinct_pids(ps: Seq<Process>) -> bool {
    forall|i: int, j: int| 0 <= i < j < ps.len() ==> ps[i].pid != ps[j].pid
}

/// The first process of the workload with the given pid.
pub open spec fn find_pid(ps: Seq<Process>, pid: u32) -> Option<Process>
    decreases ps.len(),
{
    if ps.len() == 0 {
        None
    } else if ps[0].pid == pid {
        Some(ps[0])
    } else {
        find_pid(ps.drop_first(), pid)
    }
}

/// The entry for the process `pid`, reported when the clock shows `clock`.
/// A pid that the workload does not know is reported with zero metrics.
pub open spec fn report(ps: Seq<Process>, pid: u32, clock: nat) -> OutputProcessEntry {
    match find_pid(ps, pid) {
        Some(process) => OutputProcessEntry::metrics(process, clock),
        None => OutputProcessEntry { pid, arrival: 0, burst: 0, turnaround: 0, waiting: 0 },
    }
}

/// The scheduler after `t` ticks on the workload `ps`, started in `init`.
pub open spec fn state_at(init: SchedulerState, ps: Seq<Process>, t: nat) -> SchedulerState
    decreases t,
{
    if t == 0 {
        init
    } else {
        state_at(init, ps, (t - 1) as nat).tick(arrivals_at(ps, (t - 1) as nat))
    }
}

/// The entries reported during the first `t` ticks, in the order of the
/// reports.
pub open spec fn completions(init: SchedulerState, ps: Seq<Process>, t: nat) -> Seq<
    OutputProcessEntry,
>
    decreases t,
{
    if t == 0 {
        Seq::empty()
    } else {
        let earlier = completions(init, ps, (t - 1) as nat);
        match state_at(init, ps, (t - 1) as nat).completed() {
            Some(pid) => earlier.push(report(ps, pid, t)),
            None => earlier,
        }
    }
}

/// Nothing is left to do when the clock shows `t`: every process has
/// arrived and the ready queue is empty.
pub open spec fn done_at(init: SchedulerState, ps: Seq<Process>, t: nat) -> bool {
    pending_at(ps, t).len() == 0 && state_at(init, ps, t).queue.len() == 0
}

/// `t` is the first clock value at which nothing is left to do.
pub open spec fn is_finish_time(init: SchedulerState, ps: Seq<Process>, t: nat) -> bool {
    done_at(init, ps, t) && forall|u: nat| u < t ==> !done_at(init, ps, u)
}

/// The run is over before the clock passes `limit`.
pub open spec fn finishes_within(init: SchedulerState, ps: Seq<Process>, limit: nat) -> bool {
    exists|t: nat| t <= limit && done_at(init, ps, t)
}

/// The clock value at which the run ends.
pub open spec fn finish_time(init: SchedulerState, ps: Seq<Process>) -> nat {
    choose|t: nat| is_finish_time(init, ps, t)
}

/// Everything the run reports, in the order of the reports.
pub open spec fn outcome(init: SchedulerState, ps: Seq<Process>) -> Seq<OutputProcessEntry> {
    completions(init, ps, finish_time(init, ps))
}

/// The process table that tick `t` leaves: a row for each member of the
/// queue after the tick.
pub open spec fn table_at(init: SchedulerState, ps: Seq<Process>, t: nat) -> Seq<Seq<char>> {
    let queue = state_at(init, ps, t + 1).queue;
    Seq::new(queue.len(), |i: int| table_row(queue, i, t as u32))
}

/// The process tables of the first `t` ticks, one after the other.
pub open spec fn table_until(init: SchedulerState, ps: Seq<Process>, t: nat) -> Seq<Seq<char>>
    decreases t,
{
    if t == 0 {
        Seq::empty()
    } else {
        table_until(init, ps, (t - 1) as nat) + table_at(init, ps, (t - 1) as nat)
    }
}

/// The process tables of the whole run.
pub open spec fn process_tables(init: SchedulerState, ps: Seq<Process>) -> Seq<Seq<char>> {
    table_until(init, ps, finish_time(init, ps))
}

/// The lines as sequences of characters.
pub open spec fn texts(lines: Seq<String>) -> Seq<Seq<char>> {
    Seq::new(lines.len(), |i: int| lines[i]@)
}

/// What a run gives back.
#[derive(Debug, PartialEq, Eq)]
pub struct Report {
    /// The metrics of the finished processes, in the order of the reports.
    pub entries: Vec<OutputProcessEntry>,
    /// The rows of the process tables of all ticks, where they were asked
    /// for.
    pub table: Vec<String>,
}

/// `copy` is a working copy of `process` that can exist when the clock
/// shows `t`: the work taken off it fits between its arrival and now.
pub open spec fn is_copy_of(process: Process, copy: Process, t: nat) -> bool {
    &&& process.pid == copy.pid
    &&& process.arrival == copy.arrival
    &&& copy.burst <= process.burst
    &&& process.arrival + (process.burst - copy.burst) < t
}

/// `copy` is a working copy of some process of the workload.
pub open spec fn accounted(ps: Seq<Process>, copy: Process, t: nat) -> bool {
    exists|k: int| 0 <= k < ps.len() && is_copy_of(#[trigger] ps[k], copy, t)
}

/// Every member of the queue is a working copy of a process of the workload.
pub open spec fn queue_accounted(ps: Seq<Process>, queue: Seq<Process>, t: nat) -> bool {
    forall|i: int| 0 <= i < queue.len() ==> accounted(ps, #[trigger] queue[i], t)
}

/// Filtering twice is filtering by both predicates at once.
proof fn lemma_filter_twice(
    s: Seq<Process>,
    p: spec_fn(Process) -> bool,
    q: spec_fn(Process) -> bool,
    both: spec_fn(Process) -> bool,
)
    requires
        forall|x: Process| #[trigger] both(x) == (p(x) && q(x)),
    ensures
        s.filter(p).filter(q) == s.filter(both),
    decreases s.len(),
{
    reveal(Seq::filter);
    if s.len() > 0 {
        let front = s.drop_last();
        let x = s.last();
        assert(s == front.push(x));
        lemma_filter_twice(front, p, q, both);
        front.lemma_filter_push(x, p);
        front.lemma_filter_push(x, both);
        if p(x) {
            front.filter(p).lemma_filter_push(x, q);
        }
    }
}

/// What is pending at tick `t` splits into what arrives at `t` and what is
/// pending at `t + 1`.
pub proof fn lemma_pending_split(ps: Seq<Process>, t: nat)
    ensures
        pending_at(ps, t).filter(arrives_at(t)) == arrivals_at(ps, t),
        pending_at(ps, t).filter(arrives_apart_from(t)) == pending_at(ps, t + 1),
        pending_at(ps, 0) == ps,
{
    lemma_filter_twice(ps, arrives_from(t), arrives_at(t), arrives_at(t));
    lemma_filter_twice(ps, arrives_from(t), arrives_apart_from(t), arrives_from(t + 1));
    lemma_filter_all(ps, arrives_from(0));
}

/// A filter that every element passes changes nothing.
proof fn lemma_filter_all(s: Seq<Process>, p: spec_fn(Process) -> bool)
    requires
        forall|x: Process| #[trigger] p(x),
    ensures
        s.filter(p) == s,
    decreases s.len(),
{
    reveal(Seq::filter);
    if s.len() > 0 {
        lemma_filter_all(s.drop_last(), p);
        assert(s == s.drop_last().push(s.last()));
    }
}

/// In a workload without repeated pids, looking a process up by its pid
/// finds that process.
pub proof fn lemma_find_distinct(ps: Seq<Process>, k: int)
    requires
        distinct_pids(ps),
        0 <= k < ps.len(),
    ensures
        find_pid(ps, ps[k].pid) == Some(ps[k]),
    decreases ps.len(),
{
    if k > 0 {
        let rest = ps.drop_first();
        assert(ps[0].pid != ps[k].pid);
        assert(distinct_pids(rest)) by {
            assert forall|i: int, j: int| 0 <= i < j < rest.len() implies rest[i].pid
                != rest[j].pid by {
                assert(ps[i + 1].pid != ps[j + 1].pid);
            }
        }
        lemma_find_distinct(rest, k - 1);
    }
}

/// One tick keeps every member of the queue accounted for.
pub proof fn lemma_tick_accounted(ps: Seq<Process>, s: SchedulerState, t: nat)
    requires
        queue_accounted(ps, s.queue, t),
    ensures
        queue_accounted(ps, s.tick(arrivals_at(ps, t)).queue, t + 1),
{
    let arrivals = arrivals_at(ps, t);
    let settled = s.settle();
    let ran = settled.run();
    let next = ran.enqueue(arrivals);
    assert forall|i: int| 0 <= i < next.queue.len() implies accounted(
        ps,
        #[trigger] next.queue[i],
        t + 1,
    ) by {
        if i < ran.queue.len() {
            // where this member stood before the tick
            let j = if s.completed() is Some {
                i + 1
            } else if s.rotates() {
                if i == s.queue.len() - 1 {
                    0
                } else {
                    i + 1
                }
            } else {
                i
            };
            assert(settled.queue[i] == s.queue[j]);
            assert(accounted(ps, s.queue[j], t));
            let k = choose|k: int| 0 <= k < ps.len() && is_copy_of(#[trigger] ps[k], s.queue[j], t);
            assert(is_copy_of(ps[k], next.queue[i], t + 1));
        } else {
            let a = arrivals[i - ran.queue.len()];
            assert(next.queue[i] == a);
            ps.lemma_filter_pred(arrives_at(t), i - ran.queue.len());
            ps.lemma_filter_contains_rev(arrives_at(t), a);
            let k = choose|k: int| 0 <= k < ps.len() && ps[k] == a;
            assert(is_copy_of(ps[k], a, t + 1));
        }
    }
}

/// The finish time of a run is unique.
pub proof fn lemma_finish_time_unique(init: SchedulerState, ps: Seq<Process>, t: nat)
    requires
        is_finish_time(init, ps, t),
    ensures
        finish_time(init, ps) == t,
{
    let chosen = finish_time(init, ps);
    assert(is_finish_time(init, ps, chosen));
    if chosen < t {
        assert(!done_at(init, ps, chosen));
    }
    if t < chosen {
        assert(!done_at(init, ps, t));
    }
}

/// Splits off the processes that arrive when the clock shows `timer`; the
/// others stay pending, in their order.
fn take_arrivals(pending: &mut Vec<Process>, timer: u32) -> (now: Vec<Process>)
    ensures
        now@ == old(pending)@.filter(arrives_at(timer as nat)),
        final(pending)@ == old(pending)@.filter(arrives_apart_from(timer as nat)),
{
    let mut now: Vec<Process> = Vec::new();
    let mut later: Vec<Process> = Vec::new();
    let mut i: usize = 0;
    proof {
        reveal(Seq::filter);
        assert(pending@.take(0).len() == 0);
    }
    while i < pending.len()
        invariant
            i <= pending.len(),
            now@ == pending@.take(i as int).filter(arrives_at(timer as nat)),
            later@ == pending@.take(i as int).filter(arrives_apart_from(timer as nat)),
        decreases pending.len() - i,
    {
        let process = pending[i];
        proof {
            let seen = pending@.take(i as int);
            assert(pending@.take(i + 1) == seen.push(process));
            seen.lemma_filter_push(process, arrives_at(timer as nat));
            seen.lemma_filter_push(process, arrives_apart_from(timer as nat));
        }
        if process.arrival == timer {
            now.push(process);
        } else {
            later.push(process);
        }
        i += 1;
    }
    proof {
        assert(pending@.take(i as int) == pending@);
    }
    *pending = later;
    now
}

/// Looks a process up by its pid: the first of the workload that has it.
pub fn find_process(processes: &Vec<Process>, pid: u32) -> (found: Option<Process>)
    ensures
        found == find_pid(processes@, pid),
{
    let mut i: usize = 0;
    proof {
        assert(processes@.skip(0) == processes@);
    }
    while i < processes.len()
        invariant
            i <= processes.len(),
            find_pid(processes@, pid) == find_pid(processes@.skip(i as int), pid),
        decreases processes.len() - i,
    {
        if processes[i].pid == pid {
            return Some(processes[i]);
        }
        proof {
            assert(processes@.skip(i as int).drop_first() == processes@.skip(i + 1));
        }
        i += 1;
    }
    None
}

/// Whether no two processes share a pid.
pub fn has_distinct_pids(processes: &Vec<Process>) -> (distinct: bool)
    ensures
        distinct == distinct_pids(processes@),
{
    let mut j: usize = 0;
    while j < processes.len()
        invariant
            j <= processes.len(),
            forall|a: int, b: int| 0 <= a < b < j ==> processes@[a].pid != processes@[b].pid,
        decreases processes.len() - j,
    {
        let mut i: usize = 0;
        while i < j
            invariant
                i <= j < processes.len(),
                forall|a: int| 0 <= a < i ==> processes@[a].pid != processes@[j as int].pid,
            decreases j - i,
        {
            if processes[i].pid == processes[j].pid {
                return false;
            }
            i += 1;
        }
        j += 1;
    }
    true
}

/// Runs the workload through the scheduler: the clock starts at 0, each
/// process joins the scheduler at the tick of its arrival, and the run ends
/// when every process has arrived and the ready queue is empty. Reports the
/// metrics of the finished processes in the order in which the scheduler
/// reported them and, with `debug`, the process table after every tick. The
/// scheduler is left idle again.
pub fn run<C: Cpu>(cpu: &mut C, processes: &Vec<Process>, debug: bool) -> (report: Report)
    requires
        old(cpu).state().is_idle(),
        distinct_pids(processes@),
        finishes_within(old(cpu).state(), processes@, u32::MAX as nat),
    ensures
        report.entries@ == outcome(old(cpu).state(), processes@),
        texts(report.table@) == if debug {
            process_tables(old(cpu).state(), processes@)
        } else {
            Seq::empty()
        },
        is_finish_time(old(cpu).state(), processes@, finish_time(old(cpu).state(), processes@)),
        finish_time(old(cpu).state(), processes@) <= u32::MAX,
        final(cpu).state() == old(cpu).state(),
        forall|i: int|
            0 <= i < report.entries.len() ==> (#[trigger] report.entries[i]).waiting
                == report.entries[i].turnaround - report.entries[i].burst,
{
    let ghost init = cpu.state();
    let ghost ps = processes@;
    let ghost end = choose|t: nat| t <= u32::MAX && done_at(init, ps, t);
    let mut timer: u32 = 0;
    let mut pending: Vec<Process> = Vec::new();
    let mut k: usize = 0;
    while k < processes.len()
        invariant
            k <= processes.len(),
            pending@ == processes@.take(k as int),
        decreases processes.len() - k,
    {
        pending.push(processes[k]);
        k += 1;
    }
    let mut output: Vec<OutputProcessEntry> = Vec::new();
    let mut table: Vec<String> = Vec::new();
    proof {
        assert(processes@.take(k as int) == ps);
        lemma_pending_split(ps, 0);
        assert(texts(table@) =~= table_until(init, ps, 0));
    }
    loop
        invariant
            ps == processes@,
            distinct_pids(ps),
            init.is_idle(),
            timer <= end <= u32::MAX,
            done_at(init, ps, end),
            cpu.state() == state_at(init, ps, timer as nat),
            cpu.state().wf(),
            cpu.state().discipline == init.discipline,
            pending@ == pending_at(ps, timer as nat),
            output@ == completions(init, ps, timer as nat),
            debug ==> texts(table@) == table_until(init, ps, timer as nat),
            !debug ==> table@.len() == 0,
            queue_accounted(ps, cpu.state().queue, timer as nat),
            forall|u: nat| u < timer ==> !done_at(init, ps, u),
            forall|i: int|
                0 <= i < output.len() ==> (#[trigger] output[i]).waiting == output[i].turnaround
                    - output[i].burst,
        ensures
            done_at(init, ps, timer as nat),
        decreases end - timer,
    {
        if pending.is_empty() && cpu.get_stack().is_empty() {
            break ;
        }
        let ghost before = cpu.state();
        let arrivals_now = take_arrivals(&mut pending, timer);
        proof {
            lemma_pending_split(ps, timer as nat);
            lemma_tick_accounted(ps, before, timer as nat);
        }
        let (clock, finished) = cpu.next_loop(arrivals_now, timer);
        if debug {
            let ghost earlier = table@;
            let mut rows = process_table(cpu.get_stack().as_slice(), &timer);
            proof {
                assert(texts(rows@) =~= table_at(init, ps, timer as nat));
                assert(texts(earlier + rows@) =~= texts(earlier) + texts(rows@));
            }
            table.append(&mut rows);
        }
        if let Some(pid) = finished {
            proof {
                assert(accounted(ps, before.queue[0], timer as nat));
                let k = choose|k: int|
                    0 <= k < ps.len() && is_copy_of(#[trigger] ps[k], before.queue[0], timer as nat);
                lemma_find_distinct(ps, k);
            }
            if let Some(process) = find_process(processes, pid) {
                output.push(OutputProcessEntry::measure(process, clock));
            }
        }
        timer = clock;
    }
    proof {
        lemma_finish_time_unique(init, ps, timer as nat);
        assert(texts(table@) =~= if debug {
            process_tables(init, ps)
        } else {
            Seq::empty()
        });
    }
    Report { entries: output, table }
}

/// Runs the workload through the scheduler and returns the metrics of the
/// finished processes, in the order in which the scheduler reported them.
pub fn simulate<C: Cpu>(cpu: &mut C, processes: &Vec<Process>) -> (output: Vec<OutputProcessEntry>)
    requires
        old(cpu).state().is_idle(),
        distinct_pids(processes@),
        finishes_within(old(cpu).state(), processes@, u32::MAX as nat),
    ensures
        output@ == outcome(old(cpu).state(), processes@),
        is_finish_time(old(cpu).state(), processes@, finish_time(old(cpu).state(), processes@)),
        final(cpu).state() == old(cpu).state(),
        forall|i: int|
            0 <= i < output.len() ==> (#[trigger] output[i]).waiting == output[i].turnaround
                - output[i].burst,
{
    run(cpu, processes, false).entries
}

} // verus!
