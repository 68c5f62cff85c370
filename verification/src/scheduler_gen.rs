//! Scheduling workloads and the feeder that runs them through schedulers.
use crate::horizon::{fits_clock, horizon, lemma_finishes_by_horizon};
use crate::random::sample_uniform;
use crate::scheduler::{Cpu, Process, Scheduler, SchedulerState};
use crate::simulation::{
    distinct_pids, finishes_within, has_distinct_pids, outcome, process_tables, run, texts,
    OutputProcessEntry, Report,
};
use crate::sorting::{ascending, stable_sort, stable_sorted, Ranked, lemma_stable_sort_members};
use crate::text::{append_decimal, decimal};
use vstd::prelude::*;
use vstd::string::StringExecFns;

verus! {

/// Why a workload cannot be made.
#[derive(Copy, Clone, Debug, PartialEq, Eq, Structural)]
pub enum ConfigError {
    /// The arrival range starts after it ends.
    InvalidArrivalRange,
}

impl ConfigError {
    /// The error in words.
    pub fn message(&self) -> (text: String)
        ensures
            text@ == "range_start must be less than range_end"@,
    {
        "range_start must be less than range_end".to_owned()
    }
}

impl Ranked for OutputProcessEntry {
    open spec fn rank(&self) -> u32 {
        self.pid
    }

    fn get_rank(&self) -> (rank: u32) {
        self.pid
    }
}

/// Draws `n` arrival times from the range that starts at `range_start` and
/// ends before `range_end`, and returns them in ascending order. A range of
/// one point, `range_start == range_end`, gives that point `n` times. A
/// range that starts after it ends is an error.
pub fn generate_arrival_times(n: usize, range_start: u32, range_end: u32) -> (times: Result<
    Vec<u32>,
    ConfigError,
>)
    ensures
        times is Err <==> range_start > range_end,
        times is Err ==> times == Err::<Vec<u32>, ConfigError>(ConfigError::InvalidArrivalRange),
        times matches Ok(numbers) ==> {
            &&& numbers@.len() == n
            &&& ascending(numbers@)
            &&& forall|i: int|
                0 <= i < n ==> if range_start == range_end {
                    numbers@[i] == range_start
                } else {
                    range_start <= #[trigger] numbers@[i] < range_end
                }
        },
{
    if range_start > range_end {
        return Err(ConfigError::InvalidArrivalRange);
    }
    let mut numbers: Vec<u32> = Vec::new();
    let mut i: usize = 0;
    while i < n
        invariant
            i <= n,
            range_start <= range_end,
            numbers@.len() == i,
            forall|j: int|
                0 <= j < i ==> if range_start == range_end {
                    numbers@[j] == range_start
                } else {
                    range_start <= #[trigger] numbers@[j] < range_end
                },
        decreases n - i,
    {
        if range_start == range_end {
            numbers.push(range_start);
        } else {
            numbers.push(sample_uniform(range_start, range_end));
        }
        i += 1;
    }
    let ghost drawn = numbers@;
    stable_sort(&mut numbers);
    proof {
        assert forall|i: int| 0 <= i < n implies if range_start == range_end {
            numbers@[i] == range_start
        } else {
            range_start <= #[trigger] numbers@[i] < range_end
        } by {
            lemma_stable_sort_members(drawn, numbers@, numbers@[i]);
            let j = choose|j: int| 0 <= j < drawn.len() && drawn[j] == numbers@[i];
            assert(range_start <= drawn[j]);
        }
    }
    Ok(numbers)
}

/// The workload that a feeder starts with when it is given none.
pub fn generic_test_data() -> (processes: Vec<Process>)
    ensures
        processes@ == seq![
            Process { pid: 1, arrival: 0, burst: 4 },
            Process { pid: 2, arrival: 1, burst: 3 },
            Process { pid: 3, arrival: 2, burst: 1 },
            Process { pid: 4, arrival: 3, burst: 2 },
            Process { pid: 5, arrival: 4, burst: 5 },
        ],
{
    vec![
        Process { pid: 1, arrival: 0, burst: 4 },
        Process { pid: 2, arrival: 1, burst: 3 },
        Process { pid: 3, arrival: 2, burst: 1 },
        Process { pid: 4, arrival: 3, burst: 2 },
        Process { pid: 5, arrival: 4, burst: 5 },
    ]
}

/// The line of a process in a workload: pid, arrival and burst.
pub open spec fn workload_row(p: Process) -> Seq<char> {
    decimal(p.pid as nat) + ";"@ + decimal(p.arrival as nat) + ";"@ + decimal(p.burst as nat)
        + "\n"@
}

/// The lines of the processes of a workload.
pub open spec fn workload_rows(processes: Seq<Process>) -> Seq<char>
    decreases processes.len(),
{
    if processes.len() == 0 {
        Seq::empty()
    } else {
        workload_rows(processes.drop_last()) + workload_row(processes.last())
    }
}

/// Appends the line of a process.
fn append_workload_row(text: &mut String, process: Process)
    ensures
        final(text)@ == old(text)@ + workload_row(process),
{
    append_decimal(text, process.pid);
    text.append(";");
    append_decimal(text, process.arrival);
    text.append(";");
    append_decimal(text, process.burst);
    text.append("\n");
    proof {
        assert(text@ =~= old(text)@ + workload_row(process));
    }
}

/// The workload as text: a header line, then a line for each process.
pub fn parse_test_data(processes: &[Process]) -> (text: String)
    ensures
        text@ == "PID;Arrival;Burst\n"@ + workload_rows(processes@),
{
    let mut text = String::new();
    text.append("PID;Arrival;Burst\n");
    let mut i: usize = 0;
    proof {
        assert(text@ =~= "PID;Arrival;Burst\n"@ + workload_rows(processes@.take(0)));
    }
    while i < processes.len()
        invariant
            i <= processes.len(),
            text@ == "PID;Arrival;Burst\n"@ + workload_rows(processes@.take(i as int)),
        decreases processes.len() - i,
    {
        append_workload_row(&mut text, processes[i]);
        proof {
            assert(processes@.take(i + 1).drop_last() == processes@.take(i as int));
            assert(text@ =~= "PID;Arrival;Burst\n"@ + workload_rows(processes@.take(i + 1)));
        }
        i += 1;
    }
    proof {
        assert(processes@.take(i as int) == processes@);
    }
    text
}

/// The line of an entry in a result: pid, arrival, burst, turnaround and
/// waiting.
pub open spec fn output_row(e: OutputProcessEntry) -> Seq<char> {
    decimal(e.pid as nat) + ";"@ + decimal(e.arrival as nat) + ";"@ + decimal(e.burst as nat)
        + ";"@ + decimal(e.turnaround as nat) + ";"@ + decimal(e.waiting as nat) + "\n"@
}

/// The lines of the entries of a result.
pub open spec fn output_rows(entries: Seq<OutputProcessEntry>) -> Seq<char>
    decreases entries.len(),
{
    if entries.len() == 0 {
        Seq::empty()
    } else {
        output_rows(entries.drop_last()) + output_row(entries.last())
    }
}

/// Appends the line of an entry.
fn append_output_row(text: &mut String, entry: OutputProcessEntry)
    ensures
        final(text)@ == old(text)@ + output_row(entry),
{
    append_decimal(text, entry.pid);
    text.append(";");
    append_decimal(text, entry.arrival);
    text.append(";");
    append_decimal(text, entry.burst);
    text.append(";");
    append_decimal(text, entry.turnaround);
    text.append(";");
    append_decimal(text, entry.waiting);
    text.append("\n");
    proof {
        assert(text@ =~= old(text)@ + output_row(entry));
    }
}

/// The last line of a result: the two averages.
pub open spec fn average_row(average_turnaround: Seq<char>, average_waiting: Seq<char>) -> Seq<
    char,
> {
    "Average;--;--;"@ + average_turnaround + ";"@ + average_waiting + "\n"@
}

/// The sum of the turnaround times.
pub open spec fn sum_turnaround(entries: Seq<OutputProcessEntry>) -> nat
    decreases entries.len(),
{
    if entries.len() == 0 {
        0
    } else {
        sum_turnaround(entries.drop_last()) + entries.last().turnaround as nat
    }
}

/// The sum of the waiting times.
pub open spec fn sum_waiting(entries: Seq<OutputProcessEntry>) -> nat
    decreases entries.len(),
{
    if entries.len() == 0 {
        0
    } else {
        sum_waiting(entries.drop_last()) + entries.last().waiting as nat
    }
}

/// The sums of the turnaround and of the waiting times, from which the
/// averages are taken.
pub fn totals(output: &Vec<OutputProcessEntry>) -> (sums: (u128, u128))
    ensures
        sums.0 == sum_turnaround(output@),
        sums.1 == sum_waiting(output@),
{
    let mut turnaround: u128 = 0;
    let mut waiting: u128 = 0;
    let mut i: usize = 0;
    while i < output.len()
        invariant
            i <= output.len(),
            turnaround == sum_turnaround(output@.take(i as int)),
            waiting == sum_waiting(output@.take(i as int)),
            turnaround <= i * 0xffff_ffff,
            waiting <= i * 0xffff_ffff,
        decreases output.len() - i,
    {
        proof {
            assert(output@.take(i + 1).drop_last() == output@.take(i as int));
        }
        turnaround = turnaround + output[i].turnaround as u128;
        waiting = waiting + output[i].waiting as u128;
        i += 1;
    }
    proof {
        assert(output@.take(i as int) == output@);
    }
    (turnaround, waiting)
}

/// A workload and the schedulers to run it through.
pub struct Feeder {
    pub processes: Vec<Process>,
    pub functions: Vec<Scheduler>,
    /// Whether the runs report the process table of every tick.
    pub debug: bool,
}

impl Default for Feeder {
    fn default() -> (feeder: Feeder)
        ensures
            feeder.processes@ == seq![
                Process { pid: 1, arrival: 0, burst: 4 },
                Process { pid: 2, arrival: 1, burst: 3 },
                Process { pid: 3, arrival: 2, burst: 1 },
                Process { pid: 4, arrival: 3, burst: 2 },
                Process { pid: 5, arrival: 4, burst: 5 },
            ],
            feeder.functions@.len() == 0,
            !feeder.debug,
    {
        Feeder { processes: generic_test_data(), functions: Vec::new(), debug: false }
    }
}

impl From<Vec<Process>> for Feeder {
    /// A feeder for the given workload, without schedulers.
    fn from(processes: Vec<Process>) -> (feeder: Feeder)
        ensures
            feeder.processes@ == processes@,
            feeder.functions@.len() == 0,
            !feeder.debug,
    {
        Feeder { processes, functions: Vec::new(), debug: false }
    }
}

/// What the conversion returns is stated by the contract of `from`, over
/// views: a vector is more than its view, so no spec function can name the
/// feeder itself.
impl vstd::std_specs::convert::FromSpecImpl<Vec<Process>> for Feeder {
    open spec fn obeys_from_spec() -> bool {
        false
    }

    open spec fn from_spec(processes: Vec<Process>) -> Feeder {
        arbitrary()
    }
}

impl Feeder {
    /// The states of the schedulers, in the order in which they were added.
    pub open spec fn states(&self) -> Seq<SchedulerState> {
        Seq::new(self.functions@.len(), |i: int| self.functions@[i].state())
    }

    /// No two processes share a pid, and every scheduler is idle and is done
    /// with the workload before the clock runs out.
    pub open spec fn ready(&self) -> bool {
        &&& distinct_pids(self.processes@)
        &&& forall|i: int|
            0 <= i < self.functions@.len() ==> {
                &&& (#[trigger] self.states()[i]).is_idle()
                &&& finishes_within(self.states()[i], self.processes@, u32::MAX as nat)
            }
    }

    /// No two processes share a pid, the horizon of the workload fits the
    /// clock, and every scheduler is idle.
    pub open spec fn runnable(&self) -> bool {
        &&& distinct_pids(self.processes@)
        &&& horizon(self.processes@) <= u32::MAX
        &&& forall|i: int| 0 <= i < self.functions@.len() ==> (#[trigger] self.states()[i]).is_idle()
    }

    /// Whether the feeder is runnable. A runnable feeder is ready to feed.
    pub fn is_runnable(&self) -> (runnable: bool)
        ensures
            runnable == self.runnable(),
            runnable ==> self.ready(),
    {
        if !has_distinct_pids(&self.processes) || !fits_clock(&self.processes) {
            return false;
        }
        let mut i: usize = 0;
        while i < self.functions.len()
            invariant
                i <= self.functions@.len(),
                forall|j: int| 0 <= j < i ==> (#[trigger] self.states()[j]).is_idle(),
            decreases self.functions@.len() - i,
        {
            if !self.functions[i].is_idle() {
                assert(!self.states()[i as int].is_idle());
                return false;
            }
            i += 1;
        }
        proof {
            assert forall|j: int| 0 <= j < self.functions@.len() implies finishes_within(
                #[trigger] self.states()[j],
                self.processes@,
                u32::MAX as nat,
            ) by {
                lemma_finishes_by_horizon(self.states()[j], self.processes@);
                let t = choose|t: nat|
                    t <= horizon(self.processes@) && crate::simulation::done_at(
                        self.states()[j],
                        self.processes@,
                        t,
                    );
                assert(t <= u32::MAX);
            }
        }
        true
    }

    /// A workload of `n` processes with random arrival times of the given
    /// range and the given bursts. The arrival times are drawn in ascending
    /// order and paired with the bursts in their order; the pids count up
    /// from 0, and start again from 0 after the largest `u32`. Bursts without
    /// an arrival time, and arrival times without a burst, are dropped.
    pub fn new(
        n: usize,
        arrival_range_start: u32,
        arrival_range_end: u32,
        duration_times: Vec<u32>,
    ) -> (made: Result<Feeder, ConfigError>)
        ensures
            made is Err <==> arrival_range_start > arrival_range_end,
            made is Err ==> made == Err::<Feeder, ConfigError>(ConfigError::InvalidArrivalRange),
            made matches Ok(feeder) ==> {
                &&& feeder.functions@.len() == 0
                &&& !feeder.debug
                &&& feeder.processes@.len() == if n <= duration_times@.len() {
                    n as nat
                } else {
                    duration_times@.len()
                }
                &&& feeder.processes@.len() <= 0x1_0000_0000 ==> distinct_pids(feeder.processes@)
                &&& forall|i: int|
                    0 <= i < feeder.processes@.len() ==> {
                        &&& (#[trigger] feeder.processes@[i]).pid == i as u32
                        &&& feeder.processes@[i].burst == duration_times@[i]
                        &&& if arrival_range_start == arrival_range_end {
                            feeder.processes@[i].arrival == arrival_range_start
                        } else {
                            arrival_range_start <= feeder.processes@[i].arrival
                                < arrival_range_end
                        }
                    }
                &&& forall|i: int, j: int|
                    0 <= i <= j < feeder.processes@.len() ==> feeder.processes@[i].arrival
                        <= feeder.processes@[j].arrival
            },
    {
        let arrival_times = match generate_arrival_times(n, arrival_range_start, arrival_range_end) {
            Ok(times) => times,
            Err(error) => {
                return Err(error);
            },
        };
        let mut processes: Vec<Process> = Vec::new();
        let mut i: usize = 0;
        while i < arrival_times.len() && i < duration_times.len()
            invariant
                i <= arrival_times@.len(),
                i <= duration_times@.len(),
                processes@.len() == i,
                forall|j: int|
                    0 <= j < i ==> {
                        &&& (#[trigger] processes@[j]).pid == j as u32
                        &&& processes@[j].burst == duration_times@[j]
                        &&& processes@[j].arrival == arrival_times@[j]
                    },
            decreases arrival_times@.len() - i,
        {
            processes.push(
                Process {
                    pid: #[verifier::truncate]
                    (i as u32),
                    arrival: arrival_times[i],
                    burst: duration_times[i],
                },
            );
            i += 1;
        }
        Ok(Feeder { processes, functions: Vec::new(), debug: false })
    }

    /// Adds a scheduler to run the workload through.
    pub fn add_function(&mut self, f: Scheduler)
        ensures
            final(self).processes@ == old(self).processes@,
            final(self).functions@ == old(self).functions@.push(f),
            final(self).debug == old(self).debug,
    {
        self.functions.push(f);
    }

    /// The result of a run as text: a header line, a line for each entry in
    /// the order of the pids, and a line with the two averages, which are
    /// taken as text.
    pub fn parse_output(
        output: Vec<OutputProcessEntry>,
        average_turnaround: &str,
        average_waiting: &str,
    ) -> (text: String)
        ensures
            text@ == "PID;Arrival;Burst;Turnaround;Waiting\n"@ + output_rows(
                stable_sorted(output@),
            ) + average_row(average_turnaround@, average_waiting@),
    {
        let mut output = output;
        stable_sort(&mut output);
        let mut text = String::new();
        text.append("PID;Arrival;Burst;Turnaround;Waiting\n");
        let mut i: usize = 0;
        proof {
            assert(text@ =~= "PID;Arrival;Burst;Turnaround;Waiting\n"@ + output_rows(
                output@.take(0),
            ));
        }
        while i < output.len()
            invariant
                i <= output.len(),
                text@ == "PID;Arrival;Burst;Turnaround;Waiting\n"@ + output_rows(
                    output@.take(i as int),
                ),
            decreases output.len() - i,
        {
            append_output_row(&mut text, output[i]);
            proof {
                assert(output@.take(i + 1).drop_last() == output@.take(i as int));
                assert(text@ =~= "PID;Arrival;Burst;Turnaround;Waiting\n"@ + output_rows(
                    output@.take(i + 1),
                ));
            }
            i += 1;
        }
        proof {
            assert(output@.take(i as int) == output@);
        }
        let ghost rows = text@;
        text.append("Average;--;--;");
        text.append(average_turnaround);
        text.append(";");
        text.append(average_waiting);
        text.append("\n");
        proof {
            assert(text@ =~= rows + average_row(average_turnaround@, average_waiting@));
        }
        text
    }

    /// Runs the workload through every scheduler, in the order in which they
    /// were added, each with a clock of its own that starts at 0. Returns
    /// what each run reported, in the order of the reports, with the process
    /// tables where the feeder is set to `debug`, and leaves the schedulers
    /// idle.
    pub fn feed(&mut self) -> (outputs: Vec<Report>)
        requires
            old(self).ready(),
        ensures
            final(self).processes@ == old(self).processes@,
            final(self).debug == old(self).debug,
            final(self).functions@.len() == old(self).functions@.len(),
            final(self).states() == old(self).states(),
            final(self).ready(),
            outputs@.len() == old(self).functions@.len(),
            forall|i: int|
                0 <= i < outputs@.len() ==> {
                    &&& (#[trigger] outputs@[i]).entries@ == outcome(
                        old(self).states()[i],
                        old(self).processes@,
                    )
                    &&& texts(outputs@[i].table@) == if old(self).debug {
                        process_tables(old(self).states()[i], old(self).processes@)
                    } else {
                        Seq::empty()
                    }
                },
            forall|i: int, j: int|
                0 <= i < outputs@.len() && 0 <= j < outputs@[i].entries@.len() ==> (
                #[trigger] outputs@[i].entries@[j]).waiting == outputs@[i].entries@[j].turnaround
                    - outputs@[i].entries@[j].burst,
    {
        let mut outputs: Vec<Report> = Vec::new();
        let mut i: usize = 0;
        while i < self.functions.len()
            invariant
                i <= self.functions@.len(),
                self.processes@ == old(self).processes@,
                self.debug == old(self).debug,
                self.states() == old(self).states(),
                self.functions@.len() == old(self).functions@.len(),
                old(self).ready(),
                outputs@.len() == i,
                forall|j: int|
                    0 <= j < i ==> {
                        &&& (#[trigger] outputs@[j]).entries@ == outcome(
                            old(self).states()[j],
                            old(self).processes@,
                        )
                        &&& texts(outputs@[j].table@) == if old(self).debug {
                            process_tables(old(self).states()[j], old(self).processes@)
                        } else {
                            Seq::empty()
                        }
                    },
                forall|a: int, b: int|
                    0 <= a < i && 0 <= b < outputs@[a].entries@.len() ==> (
                    #[trigger] outputs@[a].entries@[b]).waiting
                        == outputs@[a].entries@[b].turnaround - outputs@[a].entries@[b].burst,
            decreases self.functions@.len() - i,
        {
            let ghost states = self.states();
            proof {
                assert(states[i as int].is_idle());
            }
            let report = run(&mut self.functions[i], &self.processes, self.debug);
            proof {
                assert(self.states() =~= states);
            }
            outputs.push(report);
            i += 1;
        }
        outputs
    }
}

} // verus!
