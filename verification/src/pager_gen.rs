//! The paging run: a trace of page references replayed through pagers, with
//! the page faults counted.
use crate::json::{json_array, numbers_from_json, numbers_to_json, parsed_numbers};
use crate::paging::{
    lemma_least_frequent, lemma_page_in_valid, pages_of, Pager, PagerState, PagingAlgorithm,
};
use vstd::prelude::*;

verus! {

/// The pager's state after the references of `pages`, in their order.
pub open spec fn state_after(start: PagerState, pages: Seq<u32>) -> PagerState
    decreases pages.len(),
{
    if pages.len() == 0 {
        start
    } else {
        state_after(start, pages.drop_last()).page_in(pages.last())
    }
}

/// The number of references of `pages` that are page faults.
pub open spec fn fault_count(start: PagerState, pages: Seq<u32>) -> nat
    decreases pages.len(),
{
    if pages.len() == 0 {
        0
    } else {
        let earlier = fault_count(start, pages.drop_last());
        if state_after(start, pages.drop_last()).faults(pages.last()) {
            earlier + 1
        } else {
            earlier
        }
    }
}

/// The pager can take every reference of `pages` in turn.
pub open spec fn replayable(start: PagerState, pages: Seq<u32>) -> bool
    decreases pages.len(),
{
    pages.len() == 0 || (replayable(start, pages.drop_last()) && state_after(
        start,
        pages.drop_last(),
    ).accepts(pages.last()))
}

/// A trace that can be replayed can be replayed up to any point.
pub proof fn lemma_replayable_prefix(start: PagerState, pages: Seq<u32>, n: int)
    requires
        replayable(start, pages),
        0 <= n <= pages.len(),
    ensures
        replayable(start, pages.take(n)),
    decreases pages.len(),
{
    if n == pages.len() {
        assert(pages.take(n) == pages);
    } else {
        assert(pages.take(n) == pages.drop_last().take(n));
        lemma_replayable_prefix(start, pages.drop_last(), n);
    }
}

/// A valid state stays valid over a trace that can be replayed.
pub proof fn lemma_replay_valid(start: PagerState, pages: Seq<u32>)
    requires
        start.valid(),
        replayable(start, pages),
    ensures
        state_after(start, pages).valid(),
        state_after(start, pages).capacity() == start.capacity(),
        state_after(start, pages).frames().len() <= start.capacity(),
        fault_count(start, pages) <= pages.len(),
    decreases pages.len(),
{
    if pages.len() > 0 {
        lemma_replay_valid(start, pages.drop_last());
        lemma_page_in_valid(state_after(start, pages.drop_last()), pages.last());
    }
}

/// A pager with a frame, whose use counts leave room for one more use with
/// every reference of the trace, can take the whole trace.
pub proof fn lemma_replayable_with_room(start: PagerState, pages: Seq<u32>, bound: nat)
    requires
        start.capacity() >= 1,
        start.uses_at_most(bound),
        bound + pages.len() <= u32::MAX,
    ensures
        replayable(start, pages),
        state_after(start, pages).uses_at_most(bound + pages.len()),
        state_after(start, pages).capacity() == start.capacity(),
    decreases pages.len(),
{
    if pages.len() > 0 {
        let earlier = pages.drop_last();
        let page = pages.last();
        lemma_replayable_with_room(start, earlier, bound);
        let s = state_after(start, earlier);
        let room = bound + pages.len();
        match s {
            PagerState::FirstInFirstOut { .. } => {},
            PagerState::LeastFrequentlyUsed { capacity, table } => {
                let next = s.page_in(page)->LeastFrequentlyUsed_table;
                assert forall|i: int| 0 <= i < next.len() implies (#[trigger] next[i]).1
                    <= room by {
                    if pages_of(table).contains(page) {
                        let at = pages_of(table).index_of(page);
                        if i != at {
                            assert(next[i] == table[i]);
                        }
                    } else if table.len() < capacity {
                        if i < table.len() {
                            assert(next[i] == table[i]);
                        }
                    } else {
                        lemma_least_frequent(table);
                        let kept = table.remove(s.victim());
                        if i < kept.len() {
                            assert(next[i] == kept[i]);
                            if i < s.victim() {
                                assert(kept[i] == table[i]);
                            } else {
                                assert(kept[i] == table[i + 1]);
                            }
                        }
                    }
                }
            },
        }
    }
}

/// First in, first out with at least one frame takes every trace, never
/// holds more pages than it has frames or a page twice, and never faults on
/// a page that is resident: such a reference changes nothing.
pub proof fn lemma_first_in_first_out_bounded(capacity: nat, pages: Seq<u32>, page: u32)
    requires
        capacity >= 1,
    ensures
        ({
            let start = PagerState::FirstInFirstOut { capacity, frames: Seq::empty() };
            let state = state_after(start, pages);
            &&& replayable(start, pages)
            &&& state.capacity() == capacity
            &&& state.frames().len() <= capacity
            &&& state.frames().no_duplicates()
            &&& state.frames().contains(page) ==> !state.faults(page) && state.page_in(page)
                == state
        }),
{
    let start = PagerState::FirstInFirstOut { capacity, frames: Seq::empty() };
    lemma_first_in_first_out_stays(start, pages);
    lemma_replay_valid(start, pages);
}

/// A first in, first out pager with a frame stays one over a trace, and can
/// take every trace.
proof fn lemma_first_in_first_out_stays(start: PagerState, pages: Seq<u32>)
    requires
        start is FirstInFirstOut,
        start.capacity() >= 1,
    ensures
        state_after(start, pages) is FirstInFirstOut,
        state_after(start, pages).capacity() == start.capacity(),
        replayable(start, pages),
    decreases pages.len(),
{
    if pages.len() > 0 {
        lemma_first_in_first_out_stays(start, pages.drop_last());
    }
}

/// Replays the trace through the pager and counts the page faults.
pub fn count_faults<A: PagingAlgorithm>(pager: &mut A, pages: &Vec<u32>) -> (faults: usize)
    requires
        old(pager).wf(),
        old(pager).state().valid(),
        replayable(old(pager).state(), pages@),
    ensures
        final(pager).wf(),
        final(pager).state() == state_after(old(pager).state(), pages@),
        final(pager).state().valid(),
        faults == fault_count(old(pager).state(), pages@),
{
    let ghost start = pager.state();
    let mut faults: usize = 0;
    let mut i: usize = 0;
    while i < pages.len()
        invariant
            i <= pages.len(),
            replayable(start, pages@),
            pager.wf(),
            pager.state().valid(),
            pager.state() == state_after(start, pages@.take(i as int)),
            faults == fault_count(start, pages@.take(i as int)),
            faults <= i,
        decreases pages.len() - i,
    {
        proof {
            assert(pages@.take(i + 1).drop_last() == pages@.take(i as int));
            lemma_replayable_prefix(start, pages@, i + 1);
        }
        if pager.page_in(pages[i]) {
            faults += 1;
        }
        i += 1;
    }
    proof {
        assert(pages@.take(i as int) == pages@);
    }
    faults
}

/// Why a trace cannot be read.
#[derive(Copy, Clone, Debug, PartialEq, Eq, Structural)]
pub enum WorkloadError {
    /// The text is no JSON array of page numbers.
    Malformed,
}

/// A page trace and the pagers to replay it through.
pub struct Feeder {
    pub pages: Vec<u32>,
    pub functions: Vec<Pager>,
}

/// The trace that a feeder starts with when it is given none.
fn generic_test_data() -> (pages: Vec<u32>)
    ensures
        pages@ == seq![1u32, 2u32, 3u32, 2u32, 4u32, 2u32, 1u32, 3u32, 2u32, 1u32],
{
    vec![1, 2, 3, 2, 4, 2, 1, 3, 2, 1]
}

impl Default for Feeder {
    fn default() -> (feeder: Feeder)
        ensures
            feeder.pages@ == seq![1u32, 2u32, 3u32, 2u32, 4u32, 2u32, 1u32, 3u32, 2u32, 1u32],
            feeder.functions@.len() == 0,
    {
        Feeder { pages: generic_test_data(), functions: Vec::new() }
    }
}

impl Feeder {
    /// The states of the pagers, in the order in which they were added.
    pub open spec fn states(&self) -> Seq<PagerState> {
        Seq::new(self.functions@.len(), |i: int| self.functions@[i].state())
    }

    /// Every pager is consistent and can take the whole trace.
    pub open spec fn ready(&self) -> bool {
        forall|i: int|
            0 <= i < self.functions@.len() ==> {
                &&& (#[trigger] self.functions@[i]).wf()
                &&& self.functions@[i].state().valid()
                &&& replayable(self.functions@[i].state(), self.pages@)
            }
    }

    /// Every pager is consistent and has a frame, and its use counts leave
    /// room for the whole trace.
    pub open spec fn runnable(&self) -> bool {
        forall|i: int|
            0 <= i < self.functions@.len() ==> {
                &&& (#[trigger] self.functions@[i]).wf()
                &&& self.functions@[i].state().valid()
                &&& self.functions@[i].state().capacity() >= 1
                &&& exists|bound: nat|
                    self.functions@[i].state().uses_at_most(bound) && bound + self.pages@.len()
                        <= u32::MAX
            }
    }

    /// Whether the feeder is runnable. A runnable feeder is ready to feed.
    pub fn is_runnable(&self) -> (runnable: bool)
        ensures
            runnable == self.runnable(),
            runnable ==> self.ready(),
    {
        let mut i: usize = 0;
        while i < self.functions.len()
            invariant
                i <= self.functions@.len(),
                forall|j: int|
                    0 <= j < i ==> {
                        &&& (#[trigger] self.functions@[j]).wf()
                        &&& self.functions@[j].state().valid()
                        &&& self.functions@[j].state().capacity() >= 1
                        &&& exists|bound: nat|
                            self.functions@[j].state().uses_at_most(bound) && bound
                                + self.pages@.len() <= u32::MAX
                        &&& replayable(self.functions@[j].state(), self.pages@)
                    },
            decreases self.functions@.len() - i,
        {
            let pager = &self.functions[i];
            let most = pager.most_uses();
            if !pager.is_sound() || pager.capacity() < 1 || self.pages.len() > (u32::MAX
                - most) as usize {
                return false;
            }
            proof {
                lemma_replayable_with_room(pager.state(), self.pages@, most as nat);
            }
            i += 1;
        }
        true
    }

    pub fn new(pages: Vec<u32>) -> (feeder: Feeder)
        ensures
            feeder.pages@ == pages@,
            feeder.functions@.len() == 0,
    {
        Feeder { pages, functions: Vec::new() }
    }

    /// Reads a trace from JSON text: an array of page numbers. The text that
    /// [`Feeder::to_serialized_pages`] writes for a trace is read back as
    /// that trace.
    pub fn from_deserialized_pages(json: String) -> (made: Result<Feeder, WorkloadError>)
        ensures
            match parsed_numbers(json@) {
                Some(pages) => made matches Ok(feeder) && feeder.pages@ == pages
                    && feeder.functions@.len() == 0,
                None => made == Err::<Feeder, WorkloadError>(WorkloadError::Malformed),
            },
            forall|pages: Seq<u32>|
                json@ == #[trigger] json_array(pages) ==> (made matches Ok(feeder)
                    && feeder.pages@ == pages),
    {
        match numbers_from_json(json.as_str()) {
            Ok(pages) => Ok(Feeder::new(pages)),
            Err(_) => Err(WorkloadError::Malformed),
        }
    }

    /// The trace as JSON text: a compact array of the page numbers.
    pub fn to_serialized_pages(&self) -> (text: String)
        ensures
            text@ == json_array(self.pages@),
    {
        match numbers_to_json(&self.pages) {
            Ok(text) => text,
            Err(_) => String::new(),
        }
    }

    /// Adds a pager to replay the trace through.
    pub fn add_function(&mut self, function: Pager)
        ensures
            final(self).pages@ == old(self).pages@,
            final(self).functions@ == old(self).functions@.push(function),
    {
        self.functions.push(function);
    }

    /// Replays the trace through every pager, in the order in which they
    /// were added, and returns the page faults of each. The pagers keep the
    /// state in which the trace left them.
    pub fn feed(&mut self) -> (faults: Vec<usize>)
        requires
            old(self).ready(),
        ensures
            final(self).pages@ == old(self).pages@,
            final(self).functions@.len() == old(self).functions@.len(),
            faults@.len() == old(self).functions@.len(),
            forall|i: int|
                0 <= i < faults@.len() ==> {
                    &&& #[trigger] faults@[i] == fault_count(old(self).states()[i], old(self).pages@)
                    &&& final(self).states()[i] == state_after(
                        old(self).states()[i],
                        old(self).pages@,
                    )
                    &&& final(self).functions@[i].wf()
                    &&& final(self).functions@[i].state().valid()
                },
    {
        let mut faults: Vec<usize> = Vec::new();
        let mut i: usize = 0;
        while i < self.functions.len()
            invariant
                i <= self.functions@.len(),
                self.pages@ == old(self).pages@,
                self.functions@.len() == old(self).functions@.len(),
                faults@.len() == i,
                forall|j: int|
                    i <= j < self.functions@.len() ==> #[trigger] self.functions@[j] == old(
                        self,
                    ).functions@[j],
                old(self).ready(),
                forall|j: int|
                    0 <= j < i ==> {
                        &&& #[trigger] faults@[j] == fault_count(
                            old(self).states()[j],
                            old(self).pages@,
                        )
                        &&& self.states()[j] == state_after(old(self).states()[j], old(self).pages@)
                        &&& self.functions@[j].wf()
                        &&& self.functions@[j].state().valid()
                    },
            decreases self.functions@.len() - i,
        {
            let count = count_faults(&mut self.functions[i], &self.pages);
            faults.push(count);
            i += 1;
        }
        faults
    }
}

} // verus!
