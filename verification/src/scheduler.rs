//! Processes, ready queues and the two scheduling disciplines.
//!
//! A scheduler is modelled by a [`SchedulerState`]: its discipline, the ready
//! queue as a sequence of working copies, and the quantum timer. One tick of
//! the clock is the spec function [`SchedulerState::tick`]; the executable
//! schedulers are proved to follow it.
use crate::text::{append_decimal, decimal};
use vstd::prelude::*;
use vstd::string::StringExecFns;

verus! {

/// A unit of work: who it is, when it arrives and how much CPU time it needs.
///
/// Inside a ready queue `burst` is the time still owed to the working copy.
#[derive(Copy, Clone, Debug, PartialEq, Eq, Structural)]
pub struct Process {
    pub pid: u32,
    pub arrival: u32,
    pub burst: u32,
}

impl Process {
    /// The working copy after one unit of CPU time.
    pub open spec fn worked(self) -> Process {
        Process { pid: self.pid, arrival: self.arrival, burst: (self.burst - 1) as u32 }
    }
}

/// The pids of the queue, separated by commas.
pub open spec fn pid_list(stack: Seq<Process>) -> Seq<char>
    decreases stack.len(),
{
    if stack.len() == 0 {
        Seq::empty()
    } else if stack.len() == 1 {
        decimal(stack[0].pid as nat)
    } else {
        pid_list(stack.drop_last()) + ","@ + decimal(stack.last().pid as nat)
    }
}

/// The row of the process table for the `i`-th member of the queue:
/// time, pid, arrival, the pids of the whole queue, and remaining burst.
pub open spec fn table_row(stack: Seq<Process>, i: int, time: u32) -> Seq<char> {
    decimal(time as nat) + ";"@ + decimal(stack[i].pid as nat) + ";"@ + decimal(
        stack[i].arrival as nat,
    ) + ";"@ + pid_list(stack) + ";"@ + decimal(stack[i].burst as nat)
}

/// The header of the process table.
pub fn process_table_header() -> (header: String)
    ensures
        header@ == "Time;PID;Arrival;Stack;Remaining Burst"@,
{
    "Time;PID;Arrival;Stack;Remaining Burst".to_owned()
}

/// The pids of the queue as text, separated by commas.
fn pid_list_text(stack: &[Process]) -> (text: String)
    ensures
        text@ == pid_list(stack@),
{
    let mut text = String::new();
    let mut i: usize = 0;
    while i < stack.len()
        invariant
            i <= stack.len(),
            text@ == pid_list(stack@.take(i as int)),
        decreases stack.len() - i,
    {
        proof {
            assert(stack@.take(i + 1).drop_last() == stack@.take(i as int));
        }
        if i > 0 {
            text.append(",");
        }
        append_decimal(&mut text, stack[i].pid);
        i += 1;
    }
    proof {
        assert(stack@.take(i as int) == stack@);
    }
    text
}

/// The process table at one tick: a row for each member of the queue, head
/// first.
pub fn process_table(stack: &[Process], time: &u32) -> (rows: Vec<String>)
    ensures
        rows@.len() == stack@.len(),
        forall|i: int| 0 <= i < stack@.len() ==> (#[trigger] rows@[i])@ == table_row(stack@, i, *time),
{
    let pids = pid_list_text(stack);
    let mut rows: Vec<String> = Vec::new();
    let mut i: usize = 0;
    while i < stack.len()
        invariant
            i <= stack.len(),
            rows@.len() == i,
            pids@ == pid_list(stack@),
            forall|j: int| 0 <= j < i ==> (#[trigger] rows@[j])@ == table_row(stack@, j, *time),
        decreases stack.len() - i,
    {
        let process = stack[i];
        let mut row = String::new();
        append_decimal(&mut row, *time);
        row.append(";");
        append_decimal(&mut row, process.pid);
        row.append(";");
        append_decimal(&mut row, process.arrival);
        row.append(";");
        row.append(pids.as_str());
        row.append(";");
        append_decimal(&mut row, process.burst);
        proof {
            assert(row@ =~= table_row(stack@, i as int, *time));
        }
        rows.push(row);
        i += 1;
    }
    rows
}

/// How a ready queue shares the CPU.
pub enum Discipline {
    /// The head runs until it is done.
    FirstComeFirstServe,
    /// The head runs for at most `quantum` ticks in a row, then goes to the tail.
    RoundRobin { quantum: nat },
}

/// The mathematical state of a scheduler between two ticks.
#[verifier::ext_equal]
pub struct SchedulerState {
    pub discipline: Discipline,
    /// Working copies in service order, head first.
    pub queue: Seq<Process>,
    /// Ticks the head has run since it last reached the head of the queue.
    /// Always 0 under first come first serve.
    pub quantum_timer: nat,
}

impl SchedulerState {
    /// A scheduler with nothing to do.
    pub open spec fn idle(discipline: Discipline) -> SchedulerState {
        SchedulerState { discipline, queue: Seq::empty(), quantum_timer: 0 }
    }

    /// Nothing is queued and nothing has been charged. An idle scheduler is
    /// well formed.
    pub open spec fn is_idle(self) -> bool {
        self.queue.len() == 0 && self.quantum_timer == 0
    }

    /// The invariant that keeps the quantum timer within `u32`: the timer
    /// counts ticks taken off the head's burst.
    pub open spec fn wf(self) -> bool {
        match self.discipline {
            Discipline::FirstComeFirstServe => self.quantum_timer == 0,
            Discipline::RoundRobin { quantum } => {
                &&& self.queue.len() == 0 ==> self.quantum_timer == 0
                &&& self.queue.len() > 0 ==> self.quantum_timer + self.queue[0].burst <= u32::MAX
            },
        }
    }

    /// The process that the next tick reports as finished: the head, if it
    /// has no burst left.
    pub open spec fn completed(self) -> Option<u32> {
        if self.queue.len() > 0 && self.queue[0].burst == 0 {
            Some(self.queue[0].pid)
        } else {
            None
        }
    }

    /// Whether the next tick sends an unfinished head to the tail.
    pub open spec fn rotates(self) -> bool {
        &&& self.discipline matches Discipline::RoundRobin { quantum }
        &&& self.queue.len() > 0
        &&& self.queue[0].burst > 0
        &&& self.quantum_timer == quantum
    }

    /// First part of a tick: a finished head leaves, an expired head rotates.
    /// Either way the timer starts again from 0.
    pub open spec fn settle(self) -> SchedulerState {
        if self.completed() is Some {
            SchedulerState { queue: self.queue.drop_first(), quantum_timer: 0, ..self }
        } else if self.rotates() {
            SchedulerState {
                queue: self.queue.drop_first().push(self.queue[0]),
                quantum_timer: 0,
                ..self
            }
        } else {
            self
        }
    }

    /// Whether the head gets CPU time.
    pub open spec fn head_runs(self) -> bool {
        self.queue.len() > 0 && self.queue[0].burst > 0
    }

    /// Second part of a tick: the head, if it has burst left, runs for one
    /// unit, and round robin charges it to the timer.
    pub open spec fn run(self) -> SchedulerState {
        if self.head_runs() {
            SchedulerState {
                queue: self.queue.update(0, self.queue[0].worked()),
                quantum_timer: if self.discipline is RoundRobin {
                    self.quantum_timer + 1
                } else {
                    self.quantum_timer
                },
                ..self
            }
        } else {
            self
        }
    }

    /// Third part of a tick: the arrivals join the tail in their order.
    pub open spec fn enqueue(self, arrivals: Seq<Process>) -> SchedulerState {
        SchedulerState { queue: self.queue + arrivals, ..self }
    }

    /// One tick of the clock.
    pub open spec fn tick(self, arrivals: Seq<Process>) -> SchedulerState {
        self.settle().run().enqueue(arrivals)
    }
}

/// A tick keeps the state well formed, whatever arrives.
pub proof fn lemma_tick_wf(s: SchedulerState, arrivals: Seq<Process>)
    requires
        s.wf(),
    ensures
        s.tick(arrivals).wf(),
        s.tick(arrivals).discipline == s.discipline,
{
}

/// A scheduling algorithm: a ready queue that is driven one tick at a time.
pub trait Cpu {
    /// The scheduler's state as a mathematical value.
    spec fn state(&self) -> SchedulerState;

    /// Advances the scheduler by one tick: retires or rotates the head, runs
    /// the head for one unit, and admits `arrival` at the tail. Returns the
    /// clock after the tick and the pid of the process that was retired.
    fn next_loop(&mut self, arrival: Vec<Process>, timer: u32) -> (r: (u32, Option<u32>))
        requires
            old(self).state().wf(),
            timer < u32::MAX,
        ensures
            final(self).state() == old(self).state().tick(arrival@),
            final(self).state().wf(),
            r.0 == timer + 1,
            r.1 == old(self).state().completed(),
    ;

    /// The ready queue, head first.
    fn get_stack(&self) -> (stack: &Vec<Process>)
        ensures
            stack@ == self.state().queue,
    ;
}

/// First come first serve: processes run to completion in the order in which
/// they were admitted.
pub struct FirstComeFirstServe {
    pub stack: Vec<Process>,
}

impl FirstComeFirstServe {
    pub fn new() -> (cpu: FirstComeFirstServe)
        ensures
            cpu.state() == SchedulerState::idle(Discipline::FirstComeFirstServe),
    {
        FirstComeFirstServe { stack: Vec::new() }
    }
}

impl Cpu for FirstComeFirstServe {
    open spec fn state(&self) -> SchedulerState {
        SchedulerState {
            discipline: Discipline::FirstComeFirstServe,
            queue: self.stack@,
            quantum_timer: 0,
        }
    }

    fn next_loop(&mut self, arrival: Vec<Process>, timer: u32) -> (r: (u32, Option<u32>)) {
        let mut pid = None;
        if self.stack.len() > 0 && self.stack[0].burst == 0 {
            let process = self.stack.remove(0);
            pid = Some(process.pid);
        }
        if self.stack.len() > 0 {
            let head = self.stack[0];
            if head.burst > 0 {
                self.stack[0].burst = head.burst - 1;
            }
        }
        let mut arrival = arrival;
        self.stack.append(&mut arrival);
        (timer + 1, pid)
    }

    fn get_stack(&self) -> (stack: &Vec<Process>) {
        &self.stack
    }
}

/// Round robin: the head runs for at most `quantum_time` ticks in a row and
/// then goes to the tail of the queue.
pub struct RoundRobin {
    pub stack: Vec<Process>,
    /// Longest run the head is granted.
    pub quantum_time: u32,
    /// Ticks the head has run since it last reached the head of the queue.
    pub quantum_timer: u32,
}

impl RoundRobin {
    pub fn new(quantum_time: u32) -> (cpu: RoundRobin)
        ensures
            cpu.state() == SchedulerState::idle(
                Discipline::RoundRobin { quantum: quantum_time as nat },
            ),
    {
        RoundRobin { stack: Vec::new(), quantum_time, quantum_timer: 0 }
    }
}

impl Cpu for RoundRobin {
    open spec fn state(&self) -> SchedulerState {
        SchedulerState {
            discipline: Discipline::RoundRobin { quantum: self.quantum_time as nat },
            queue: self.stack@,
            quantum_timer: self.quantum_timer as nat,
        }
    }

    /// With a quantum of at least 1 the timer stays within the quantum.
    fn next_loop(&mut self, arrival: Vec<Process>, timer: u32) -> (r: (u32, Option<u32>))
        ensures
            final(self).quantum_time == old(self).quantum_time,
            old(self).quantum_time >= 1 && old(self).quantum_timer <= old(self).quantum_time
                ==> final(self).quantum_timer <= old(self).quantum_time,
    {
        let mut pid = None;
        if self.stack.len() > 0 {
            if self.stack[0].burst == 0 {
                let process = self.stack.remove(0);
                self.quantum_timer = 0;
                pid = Some(process.pid);
            } else if self.quantum_timer == self.quantum_time {
                self.quantum_timer = 0;
                let process = self.stack.remove(0);
                self.stack.push(process);
            }
        }
        if self.stack.len() > 0 {
            let head = self.stack[0];
            if head.burst > 0 {
                self.stack[0].burst = head.burst - 1;
                self.quantum_timer += 1;
            }
        }
        let mut arrival = arrival;
        self.stack.append(&mut arrival);
        (timer + 1, pid)
    }

    fn get_stack(&self) -> (stack: &Vec<Process>) {
        &self.stack
    }
}

/// One of the scheduling disciplines, chosen at run time.
pub enum Scheduler {
    FirstComeFirstServe(FirstComeFirstServe),
    RoundRobin(RoundRobin),
}

impl Scheduler {
    /// Whether the scheduler has nothing queued and nothing charged.
    pub fn is_idle(&self) -> (idle: bool)
        ensures
            idle == self.state().is_idle(),
    {
        match self {
            Scheduler::FirstComeFirstServe(cpu) => cpu.stack.len() == 0,
            Scheduler::RoundRobin(cpu) => cpu.stack.len() == 0 && cpu.quantum_timer == 0,
        }
    }
}

impl Cpu for Scheduler {
    open spec fn state(&self) -> SchedulerState {
        match self {
            Scheduler::FirstComeFirstServe(cpu) => cpu.state(),
            Scheduler::RoundRobin(cpu) => cpu.state(),
        }
    }

    fn next_loop(&mut self, arrival: Vec<Process>, timer: u32) -> (r: (u32, Option<u32>)) {
        match self {
            Scheduler::FirstComeFirstServe(cpu) => cpu.next_loop(arrival, timer),
            Scheduler::RoundRobin(cpu) => cpu.next_loop(arrival, timer),
        }
    }

    fn get_stack(&self) -> (stack: &Vec<Process>) {
        match self {
            Scheduler::FirstComeFirstServe(cpu) => cpu.get_stack(),
            Scheduler::RoundRobin(cpu) => cpu.get_stack(),
        }
    }
}

} // verus!
