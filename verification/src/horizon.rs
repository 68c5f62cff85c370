//! How long a run can take: every run from an idle scheduler is over when
//! the clock shows the last arrival, plus one, plus two ticks and the burst
//! for every process. A workload whose horizon fits the clock can be run.
use crate::scheduler::{Process, SchedulerState};
use crate::simulation::{
    arrivals_at, arrives_apart_from, arrives_at, arrives_from, done_at, finishes_within,
    lemma_pending_split, pending_at, state_at,
};
use vstd::prelude::*;

verus! {

/// The ticks that the processes can keep a scheduler busy: for each its
/// burst, one tick to be retired, and one in which a rotation may leave the
/// CPU unused.
pub open spec fn load(processes: Seq<Process>) -> nat
    decreases processes.len(),
{
    if processes.len() == 0 {
        0
    } else {
        load(processes.drop_last()) + processes.last().burst as nat + 2
    }
}

/// The latest arrival of the workload, 0 for an empty one.
pub open spec fn last_arrival(processes: Seq<Process>) -> nat
    decreases processes.len(),
{
    if processes.len() == 0 {
        0
    } else {
        let before = last_arrival(processes.drop_last());
        if processes.last().arrival > before {
            processes.last().arrival as nat
        } else {
            before
        }
    }
}

/// A clock value by which every run of the workload is over.
pub open spec fn horizon(processes: Seq<Process>) -> nat {
    last_arrival(processes) + 1 + load(processes)
}

/// The load that the scheduler still carries: that of its queue, less the
/// tick already spent on a head that is only waiting to be retired.
pub open spec fn carried(s: SchedulerState) -> int {
    load(s.queue) - if s.completed() is Some {
        1int
    } else {
        0int
    }
}

/// The load that is left when the clock shows `t`: what the scheduler
/// carries and what has yet to arrive.
pub open spec fn remaining(init: SchedulerState, ps: Seq<Process>, t: nat) -> int {
    carried(state_at(init, ps, t)) + load(pending_at(ps, t))
}

proof fn lemma_load_concat(a: Seq<Process>, b: Seq<Process>)
    ensures
        load(a + b) == load(a) + load(b),
    decreases b.len(),
{
    if b.len() == 0 {
        assert(a + b == a);
    } else {
        assert((a + b).drop_last() == a + b.drop_last());
        lemma_load_concat(a, b.drop_last());
    }
}

proof fn lemma_load_one(p: Process)
    ensures
        load(seq![p]) == p.burst + 2,
{
    reveal_with_fuel(load, 2);
    assert(seq![p].drop_last().len() == 0);
}

proof fn lemma_load_head(queue: Seq<Process>, head: Process)
    requires
        queue.len() > 0,
    ensures
        load(queue) == load(queue.drop_first()) + queue[0].burst + 2,
        load(queue.update(0, head)) == load(queue.drop_first()) + head.burst + 2,
        load(queue.drop_first().push(queue[0])) == load(queue),
        load(queue) >= 2,
{
    lemma_load_one(queue[0]);
    lemma_load_one(head);
    assert(queue == seq![queue[0]] + queue.drop_first());
    lemma_load_concat(seq![queue[0]], queue.drop_first());
    assert(queue.update(0, head) == seq![head] + queue.drop_first());
    lemma_load_concat(seq![head], queue.drop_first());
    assert(queue.drop_first().push(queue[0]) == queue.drop_first() + seq![queue[0]]);
    lemma_load_concat(queue.drop_first(), seq![queue[0]]);
}

/// The load that is pending at tick `t` is that of the arrivals of `t` and
/// of what is pending after them.
proof fn lemma_load_split(ps: Seq<Process>, t: nat)
    ensures
        load(pending_at(ps, t)) == load(arrivals_at(ps, t)) + load(pending_at(ps, t + 1)),
    decreases ps.len(),
{
    reveal(Seq::filter);
    if ps.len() > 0 {
        let front = ps.drop_last();
        let p = ps.last();
        assert(ps == front.push(p));
        lemma_load_split(front, t);
        front.lemma_filter_push(p, arrives_from(t));
        front.lemma_filter_push(p, arrives_at(t));
        front.lemma_filter_push(p, arrives_from(t + 1));
        assert(forall|s: Seq<Process>| #[trigger] s.push(p).drop_last() == s);
    }
}

/// After the last arrival nothing is pending.
proof fn lemma_nothing_pending(ps: Seq<Process>, t: nat)
    requires
        t > last_arrival(ps),
    ensures
        pending_at(ps, t).len() == 0,
    decreases ps.len(),
{
    reveal(Seq::filter);
    if ps.len() > 0 {
        let front = ps.drop_last();
        assert(ps == front.push(ps.last()));
        lemma_nothing_pending(front, t);
        front.lemma_filter_push(ps.last(), arrives_from(t));
    }
}

/// A tick takes at least one off the load that a busy scheduler carries,
/// and adds at most the load of the arrivals.
proof fn lemma_tick_progress(s: SchedulerState, arrivals: Seq<Process>)
    ensures
        carried(s.tick(arrivals)) <= carried(s) + load(arrivals) - if s.queue.len() > 0 {
            1int
        } else {
            0int
        },
{
    let settled = s.settle();
    let ran = settled.run();
    let next = ran.enqueue(arrivals);
    lemma_load_concat(ran.queue, arrivals);
    if ran.queue.len() > 0 {
        assert(next.queue[0] == ran.queue[0]);
    }
    assert(carried(next) <= carried(ran) + load(arrivals));
    if s.queue.len() > 0 {
        lemma_load_head(s.queue, s.queue[0]);
        if settled.queue.len() > 0 {
            lemma_load_head(settled.queue, settled.queue[0].worked());
        }
        if s.rotates() {
            assert(settled.queue.len() > 0);
        }
    } else {
        assert(settled == s);
        assert(ran == s);
    }
}

/// The load that is left never grows, and shrinks while the scheduler is
/// busy.
proof fn lemma_remaining_step(init: SchedulerState, ps: Seq<Process>, t: nat)
    ensures
        remaining(init, ps, t + 1) <= remaining(init, ps, t) - if state_at(init, ps, t).queue.len()
            > 0 {
            1int
        } else {
            0int
        },
{
    lemma_tick_progress(state_at(init, ps, t), arrivals_at(ps, t));
    lemma_load_split(ps, t);
}

proof fn lemma_remaining_bounded(init: SchedulerState, ps: Seq<Process>, t: nat)
    requires
        init.is_idle(),
    ensures
        remaining(init, ps, t) <= load(ps),
    decreases t,
{
    if t == 0 {
        lemma_pending_split(ps, 0);
    } else {
        lemma_remaining_bounded(init, ps, (t - 1) as nat);
        lemma_remaining_step(init, ps, (t - 1) as nat);
    }
}

/// From the last arrival on, every tick that does not find the run over
/// takes one off the load that is left.
proof fn lemma_countdown(init: SchedulerState, ps: Seq<Process>, k: nat)
    requires
        init.is_idle(),
    ensures
        finishes_within(init, ps, last_arrival(ps) + 1 + k) || remaining(
            init,
            ps,
            last_arrival(ps) + 1 + k,
        ) + k <= load(ps),
    decreases k,
{
    let start = last_arrival(ps) + 1;
    if k == 0 {
        lemma_remaining_bounded(init, ps, start);
    } else {
        let t = (start + k - 1) as nat;
        lemma_countdown(init, ps, (k - 1) as nat);
        if finishes_within(init, ps, t) {
            let u = choose|u: nat| u <= t && done_at(init, ps, u);
            assert(u <= start + k && done_at(init, ps, u));
        } else {
            assert(!done_at(init, ps, t));
            lemma_nothing_pending(ps, t);
            lemma_remaining_step(init, ps, t);
        }
    }
}

/// Every run from an idle scheduler is over by the horizon of its workload.
pub proof fn lemma_finishes_by_horizon(init: SchedulerState, ps: Seq<Process>)
    requires
        init.is_idle(),
    ensures
        finishes_within(init, ps, horizon(ps)),
{
    let end = horizon(ps);
    lemma_countdown(init, ps, load(ps));
    if !finishes_within(init, ps, end) {
        lemma_nothing_pending(ps, end);
        let s = state_at(init, ps, end);
        if s.queue.len() > 0 {
            lemma_load_head(s.queue, s.queue[0]);
        }
        assert(done_at(init, ps, end));
    }
}

/// Whether the horizon of the workload fits the clock.
pub fn fits_clock(processes: &Vec<Process>) -> (fits: bool)
    ensures
        fits == (horizon(processes@) <= u32::MAX),
{
    let mut latest: u32 = 0;
    let mut total: u64 = 0;
    let mut i: usize = 0;
    while i < processes.len()
        invariant
            i <= processes.len(),
            latest == last_arrival(processes@.take(i as int)),
            total == load(processes@.take(i as int)),
            total <= u32::MAX,
        decreases processes.len() - i,
    {
        proof {
            assert(processes@.take(i + 1).drop_last() == processes@.take(i as int));
        }
        if processes[i].arrival > latest {
            latest = processes[i].arrival;
        }
        total = total + processes[i].burst as u64 + 2;
        if total > u32::MAX as u64 {
            proof {
                lemma_load_grows(processes@, i + 1);
            }
            return false;
        }
        i += 1;
    }
    proof {
        assert(processes@.take(i as int) == processes@);
    }
    latest as u64 + 1 + total <= u32::MAX as u64
}

/// A part of the workload has no more load than the whole.
proof fn lemma_load_grows(ps: Seq<Process>, n: int)
    requires
        0 <= n <= ps.len(),
    ensures
        load(ps.take(n)) <= load(ps),
    decreases ps.len(),
{
    if n == ps.len() {
        assert(ps.take(n) == ps);
    } else {
        assert(ps.take(n) == ps.drop_last().take(n));
        lemma_load_grows(ps.drop_last(), n);
    }
}

} // verus!
