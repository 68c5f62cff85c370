//! Workloads made to show a point: bursts with spikes, one long process in
//! front of short ones, page traces that repeat.
use crate::random::shuffle;
use crate::scheduler::Process;
use vstd::prelude::*;

verus! {

/// `pattern` written `times` times in a row.
pub open spec fn repeated(pattern: Seq<u32>, times: nat) -> Seq<u32>
    decreases times,
{
    if times == 0 {
        Seq::empty()
    } else {
        repeated(pattern, (times - 1) as nat) + pattern
    }
}

/// `count` zeros.
pub open spec fn zeros(count: nat) -> Seq<u32> {
    Seq::new(count, |i: int| 0u32)
}

/// The reference string of twelve pages on which a pager can fault more
/// often with four frames than with three.
pub open spec fn belady_sequence() -> Seq<u32> {
    seq![3u32, 2u32, 1u32, 0u32, 3u32, 2u32, 4u32, 3u32, 2u32, 1u32, 0u32, 4u32]
}

/// The process at place `i` of a workload with spikes: it arrives at tick
/// `i`, and its burst is 25 at every sixteenth place and `burst` elsewhere.
pub open spec fn spiked(i: int, burst: u32) -> Process {
    Process { pid: i as u32, arrival: i as u32, burst: if i % 16 == 0 { 25 } else { burst } }
}

/// Writes the pattern as often as it fits whole into `n` pages.
pub fn repeating_pages_sequence(seq: &[u32], n: usize) -> (pages: Vec<u32>)
    requires
        seq@.len() > 0,
    ensures
        pages@ == repeated(seq@, (n as nat) / seq@.len()),
{
    let times = n / seq.len();
    let mut pages: Vec<u32> = Vec::new();
    let mut round: usize = 0;
    while round < times
        invariant
            round <= times,
            pages@ == repeated(seq@, round as nat),
        decreases times - round,
    {
        let mut i: usize = 0;
        while i < seq.len()
            invariant
                i <= seq@.len(),
                pages@ == repeated(seq@, round as nat) + seq@.take(i as int),
            decreases seq@.len() - i,
        {
            pages.push(seq[i]);
            proof {
                assert(seq@.take(i + 1) == seq@.take(i as int).push(seq@[i as int]));
            }
            i += 1;
        }
        proof {
            assert(seq@.take(i as int) == seq@);
        }
        round += 1;
    }
    pages
}

/// The reference string that shows Belady's anomaly, as often as it fits
/// whole into `n` pages.
pub fn belady_anomaly(n: usize) -> (pages: Vec<u32>)
    ensures
        pages@ == repeated(belady_sequence(), (n as nat) / 12),
{
    let known_sequence: [u32; 12] = [3, 2, 1, 0, 3, 2, 4, 3, 2, 1, 0, 4];
    proof {
        assert(known_sequence@ == belady_sequence());
    }
    repeating_pages_sequence(known_sequence.as_slice(), n)
}

/// A workload of short bursts with a long one at every sixteenth place. The
/// process at place `i` arrives at tick `i` with `bursts[i]`, or with 25 at
/// the sixteenth places. The workload has `n` processes, or as many as there
/// are bursts if these are fewer.
pub fn low_burst_with_spikes(n: i32, bursts: &Vec<u32>) -> (processes: Vec<Process>)
    ensures
        processes@.len() == if n <= 0 {
            0
        } else if n <= bursts@.len() {
            n as nat
        } else {
            bursts@.len()
        },
        forall|i: int|
            0 <= i < processes@.len() ==> #[trigger] processes@[i] == spiked(i, bursts@[i]),
{
    let count: usize = if n <= 0 {
        0
    } else if (n as usize) <= bursts.len() {
        n as usize
    } else {
        bursts.len()
    };
    let mut processes: Vec<Process> = Vec::new();
    let mut i: usize = 0;
    while i < count
        invariant
            i <= count <= bursts@.len(),
            count <= i32::MAX,
            processes@.len() == i,
            forall|j: int| 0 <= j < i ==> #[trigger] processes@[j] == spiked(j, bursts@[j]),
        decreases count - i,
    {
        let burst = if i % 16 == 0 {
            25
        } else {
            bursts[i]
        };
        processes.push(Process { pid: i as u32, arrival: i as u32, burst });
        i += 1;
    }
    processes
}

/// A workload with one long process in front: process 0 arrives at tick 0
/// with a burst of 100, and process `i` after it arrives at tick `i` with
/// `bursts[i - 1]`. The workload has `n` processes, or one more than there
/// are bursts if these are fewer, and never less than the first.
pub fn high_burst_first_then_low(n: i32, bursts: &Vec<u32>) -> (processes: Vec<Process>)
    ensures
        processes@.len() == if n <= 1 {
            1
        } else if n - 1 <= bursts@.len() {
            n as nat
        } else {
            bursts@.len() + 1
        },
        processes@[0] == (Process { pid: 0, arrival: 0, burst: 100 }),
        forall|i: int|
            1 <= i < processes@.len() ==> #[trigger] processes@[i] == (Process {
                pid: i as u32,
                arrival: i as u32,
                burst: bursts@[i - 1],
            }),
{
    let count: usize = if n <= 1 {
        1
    } else if ((n - 1) as usize) <= bursts.len() {
        n as usize
    } else {
        bursts.len() + 1
    };
    let mut processes: Vec<Process> = Vec::new();
    processes.push(Process { pid: 0, arrival: 0, burst: 100 });
    let mut i: usize = 1;
    while i < count
        invariant
            1 <= i <= count <= bursts@.len() + 1,
            count <= i32::MAX,
            processes@.len() == i,
            processes@[0] == (Process { pid: 0, arrival: 0, burst: 100 }),
            forall|j: int|
                1 <= j < i ==> #[trigger] processes@[j] == (Process {
                    pid: j as u32,
                    arrival: j as u32,
                    burst: bursts@[j - 1],
                }),
        decreases count - i,
    {
        processes.push(Process { pid: i as u32, arrival: i as u32, burst: bursts[i - 1] });
        i += 1;
    }
    processes
}

/// A trace in which page 0 is frequent: the given pages and `dupes`
/// references to page 0, in a random order.
pub fn frequent_page(pages: Vec<u32>, dupes: usize) -> (trace: Vec<u32>)
    ensures
        trace@.to_multiset() == (pages@ + zeros(dupes as nat)).to_multiset(),
        trace@.len() == pages@.len() + dupes,
{
    let mut trace = pages;
    let mut i: usize = 0;
    while i < dupes
        invariant
            i <= dupes,
            trace@ == pages@ + zeros(i as nat),
        decreases dupes - i,
    {
        trace.push(0);
        proof {
            assert(trace@ =~= pages@ + zeros((i + 1) as nat));
        }
        i += 1;
    }
    let ghost unshuffled = trace@;
    shuffle(&mut trace);
    proof {
        unshuffled.to_multiset_ensures();
        trace@.to_multiset_ensures();
    }
    trace
}

} // verus!
