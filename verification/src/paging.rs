//! Page frames and the two replacement policies.
//!
//! A pager is modelled by a [`PagerState`]: its capacity and its resident
//! pages, oldest first, with their use counts where the policy keeps them.
//! One page reference is the spec function [`PagerState::page_in`]; the
//! executable pagers are proved to follow it.
use crate::frequency_table::{
    entries, lacks, table_get, table_insert, table_new, table_pairs, table_shift_remove,
};
use indexmap::IndexMap;
use vstd::prelude::*;

verus! {

/// The pages of a frequency table, in its order.
pub open spec fn pages_of(table: Seq<(u32, u32)>) -> Seq<u32> {
    Seq::new(table.len(), |i: int| table[i].0)
}

/// The position of the pair to evict: the first among those with the
/// smallest use count.
pub open spec fn least_frequent(table: Seq<(u32, u32)>) -> int
    decreases table.len(),
{
    if table.len() <= 1 {
        0
    } else {
        let before = least_frequent(table.drop_last());
        if table.last().1 < table[before].1 {
            table.len() - 1
        } else {
            before
        }
    }
}

/// The mathematical state of a pager between two references.
#[verifier::ext_equal]
pub enum PagerState {
    /// Resident pages in the order in which they came in.
    FirstInFirstOut { capacity: nat, frames: Seq<u32> },
    /// Resident pages with their use counts, in the order in which they came in.
    LeastFrequentlyUsed { capacity: nat, table: Seq<(u32, u32)> },
}

impl PagerState {
    /// The number of frames.
    pub open spec fn capacity(self) -> nat {
        match self {
            PagerState::FirstInFirstOut { capacity, .. } => capacity,
            PagerState::LeastFrequentlyUsed { capacity, .. } => capacity,
        }
    }

    /// The resident pages, oldest first.
    pub open spec fn frames(self) -> Seq<u32> {
        match self {
            PagerState::FirstInFirstOut { frames, .. } => frames,
            PagerState::LeastFrequentlyUsed { table, .. } => pages_of(table),
        }
    }

    /// No page is resident twice, the frames suffice, and every counted page
    /// has been used at least once.
    pub open spec fn valid(self) -> bool {
        &&& self.frames().no_duplicates()
        &&& self.frames().len() <= self.capacity()
        &&& self matches PagerState::LeastFrequentlyUsed { table, .. } ==> forall|i: int|
            0 <= i < table.len() ==> (#[trigger] table[i]).1 >= 1
    }

    /// Whether the pager can take a reference to `page`: it has a frame, and
    /// the page's use count has room for one more.
    pub open spec fn accepts(self, page: u32) -> bool {
        &&& self.capacity() >= 1
        &&& self matches PagerState::LeastFrequentlyUsed { table, .. } ==> forall|i: int|
            0 <= i < table.len() && (#[trigger] table[i]).0 == page ==> table[i].1 < u32::MAX
    }

    /// No use count is above `bound`.
    pub open spec fn uses_at_most(self, bound: nat) -> bool {
        self matches PagerState::LeastFrequentlyUsed { table, .. } ==> forall|i: int|
            0 <= i < table.len() ==> (#[trigger] table[i]).1 <= bound
    }

    /// Whether a reference to `page` is a page fault.
    pub open spec fn faults(self, page: u32) -> bool {
        !self.frames().contains(page)
    }

    /// The position of the page that leaves when a fault finds every frame
    /// taken.
    pub open spec fn victim(self) -> int {
        match self {
            PagerState::FirstInFirstOut { .. } => 0,
            PagerState::LeastFrequentlyUsed { table, .. } => least_frequent(table),
        }
    }

    /// The state after a reference to `page`.
    pub open spec fn page_in(self, page: u32) -> PagerState {
        match self {
            PagerState::FirstInFirstOut { capacity, frames } => {
                if frames.contains(page) {
                    self
                } else if frames.len() < capacity {
                    PagerState::FirstInFirstOut { capacity, frames: frames.push(page) }
                } else {
                    PagerState::FirstInFirstOut {
                        capacity,
                        frames: frames.remove(self.victim()).push(page),
                    }
                }
            },
            PagerState::LeastFrequentlyUsed { capacity, table } => {
                if pages_of(table).contains(page) {
                    let at = pages_of(table).index_of(page);
                    PagerState::LeastFrequentlyUsed {
                        capacity,
                        table: table.update(at, (page, (table[at].1 + 1) as u32)),
                    }
                } else if table.len() < capacity {
                    PagerState::LeastFrequentlyUsed { capacity, table: table.push((page, 1u32)) }
                } else {
                    PagerState::LeastFrequentlyUsed {
                        capacity,
                        table: table.remove(self.victim()).push((page, 1u32)),
                    }
                }
            },
        }
    }
}

/// The pair that [`least_frequent`] picks has the smallest use count, and
/// every pair before it has a larger one.
pub proof fn lemma_least_frequent(table: Seq<(u32, u32)>)
    requires
        table.len() > 0,
    ensures
        0 <= least_frequent(table) < table.len(),
        forall|j: int|
            0 <= j < table.len() ==> table[least_frequent(table)].1 <= (#[trigger] table[j]).1,
        forall|j: int|
            0 <= j < least_frequent(table) ==> table[least_frequent(table)].1 < (
            #[trigger] table[j]).1,
    decreases table.len(),
{
    if table.len() > 1 {
        let front = table.drop_last();
        lemma_least_frequent(front);
        assert forall|j: int| 0 <= j < table.len() - 1 implies (#[trigger] table[j]) == front[j] by {}
    }
}

/// A reference keeps a valid state valid, with the same capacity, and leaves
/// the page resident.
pub proof fn lemma_page_in_valid(s: PagerState, page: u32)
    requires
        s.valid(),
        s.accepts(page),
    ensures
        s.page_in(page).valid(),
        s.page_in(page).capacity() == s.capacity(),
        s.page_in(page).frames().contains(page),
        s.page_in(page).frames().len() <= s.capacity(),
        !s.faults(page) ==> s.page_in(page).frames() == s.frames(),
{
    let next = s.page_in(page);
    let frames = s.frames();
    if frames.contains(page) {
        match s {
            PagerState::FirstInFirstOut { .. } => {},
            PagerState::LeastFrequentlyUsed { table, .. } => {
                assert(next.frames() =~= frames);
            },
        }
    } else {
        let kept = if frames.len() < s.capacity() {
            frames
        } else {
            match s {
                PagerState::LeastFrequentlyUsed { table, .. } => {
                    lemma_least_frequent(table);
                },
                _ => {},
            }
            frames.remove(s.victim())
        };
        assert(next.frames() =~= kept.push(page));
        assert(kept.push(page)[kept.len() as int] == page);
        assert(!kept.contains(page)) by {
            if kept.contains(page) {
                let i = choose|i: int| 0 <= i < kept.len() && kept[i] == page;
                if frames.len() < s.capacity() {
                    assert(frames[i] == page);
                } else if i < s.victim() {
                    assert(frames[i] == page);
                } else {
                    assert(frames[i + 1] == page);
                }
            }
        }
        assert(kept.no_duplicates()) by {
            if !(frames.len() < s.capacity()) {
                let v = s.victim();
                assert forall|i: int, j: int| 0 <= i < kept.len() && 0 <= j < kept.len() && i != j
                    implies kept[i] != kept[j] by {
                    let a = if i < v { i } else { i + 1 };
                    let b = if j < v { j } else { j + 1 };
                    assert(frames[a] != frames[b]);
                }
            }
        }
        match s {
            PagerState::LeastFrequentlyUsed { table, .. } => {
                let kept_table = if frames.len() < s.capacity() {
                    table
                } else {
                    table.remove(s.victim())
                };
                assert forall|i: int| 0 <= i < kept_table.len() implies (
                #[trigger] kept_table[i]).1 >= 1 by {
                    if !(frames.len() < s.capacity()) && i >= s.victim() {
                        assert(kept_table[i] == table[i + 1]);
                    } else {
                        assert(kept_table[i] == table[i]);
                    }
                }
            },
            _ => {},
        }
    }
}

/// A page replacement algorithm: a fixed number of frames that takes one page
/// reference at a time.
pub trait PagingAlgorithm {
    /// The pager's state as a mathematical value.
    spec fn state(&self) -> PagerState;

    /// The pager's fields agree with each other.
    spec fn wf(&self) -> bool;

    /// Takes a reference to `page`: leaves a resident page where it is,
    /// admits a missing one, and evicts a page for it where every frame is
    /// taken. Returns whether the reference was a page fault.
    fn page_in(&mut self, page: u32) -> (faulted: bool)
        requires
            old(self).wf(),
            old(self).state().valid(),
            old(self).state().accepts(page),
        ensures
            final(self).wf(),
            final(self).state() == old(self).state().page_in(page),
            final(self).state().valid(),
            faulted == old(self).state().faults(page),
    ;
}

/// The position of `page` in `frames`, if it is there.
fn position(frames: &Vec<u32>, page: u32) -> (at: Option<usize>)
    ensures
        match at {
            Some(i) => i < frames.len() && frames@[i as int] == page,
            None => !frames@.contains(page),
        },
{
    let mut i: usize = 0;
    while i < frames.len()
        invariant
            i <= frames.len(),
            forall|j: int| 0 <= j < i ==> frames@[j] != page,
        decreases frames.len() - i,
    {
        if frames[i] == page {
            return Some(i);
        }
        i += 1;
    }
    None
}

/// First in, first out: on a fault with every frame taken, the page that
/// came in first leaves.
#[derive(Debug)]
pub struct FirstInFirstOut {
    /// Resident pages, oldest first.
    pub queue: Vec<u32>,
    /// Number of frames.
    pub page_size: usize,
}

impl FirstInFirstOut {
    pub fn new(memory_size: usize) -> (pager: FirstInFirstOut)
        ensures
            pager.wf(),
            pager.state().valid(),
            pager.state() == (PagerState::FirstInFirstOut {
                capacity: memory_size as nat,
                frames: Seq::empty(),
            }),
    {
        FirstInFirstOut { queue: Vec::new(), page_size: memory_size }
    }
}

impl PagingAlgorithm for FirstInFirstOut {
    open spec fn state(&self) -> PagerState {
        PagerState::FirstInFirstOut { capacity: self.page_size as nat, frames: self.queue@ }
    }

    open spec fn wf(&self) -> bool {
        true
    }

    fn page_in(&mut self, page: u32) -> (faulted: bool) {
        proof {
            lemma_page_in_valid(self.state(), page);
        }
        if position(&self.queue, page).is_some() {
            false
        } else if self.queue.len() != self.page_size {
            self.queue.push(page);
            true
        } else {
            self.queue.remove(0);
            self.queue.push(page);
            true
        }
    }
}

/// Least frequently used: on a fault with every frame taken, the page with
/// the fewest uses since it came in leaves; among several, the one that came
/// in first.
#[derive(Debug)]
pub struct LeastFrequentlyUsed {
    /// Resident pages, oldest first.
    pub queue: Vec<u32>,
    /// Use count of each resident page, in the order of `queue`.
    pub frequency: IndexMap<u32, u32>,
    /// Number of frames.
    pub page_size: usize,
}

impl LeastFrequentlyUsed {
    pub fn new(memory_size: usize) -> (pager: LeastFrequentlyUsed)
        ensures
            pager.wf(),
            pager.state().valid(),
            pager.state() == (PagerState::LeastFrequentlyUsed {
                capacity: memory_size as nat,
                table: Seq::empty(),
            }),
    {
        let pager = LeastFrequentlyUsed {
            queue: Vec::new(),
            frequency: table_new(),
            page_size: memory_size,
        };
        proof {
            assert(pager.queue@ =~= pages_of(entries(pager.frequency)));
        }
        pager
    }

    /// The position of the pair that [`least_frequent`] picks.
    fn pick_victim(pairs: &Vec<(u32, u32)>) -> (at: usize)
        requires
            pairs.len() > 0,
        ensures
            at == least_frequent(pairs@),
            at < pairs.len(),
    {
        let mut best: usize = 0;
        let mut i: usize = 1;
        proof {
            assert(pairs@.take(1).len() == 1);
        }
        while i < pairs.len()
            invariant
                1 <= i <= pairs.len(),
                best < i,
                best == least_frequent(pairs@.take(i as int)),
            decreases pairs.len() - i,
        {
            proof {
                assert(pairs@.take(i + 1).drop_last() == pairs@.take(i as int));
            }
            if pairs[i].1 < pairs[best].1 {
                best = i;
            }
            i += 1;
        }
        proof {
            assert(pairs@.take(i as int) == pairs@);
        }
        best
    }
}

impl PagingAlgorithm for LeastFrequentlyUsed {
    open spec fn state(&self) -> PagerState {
        PagerState::LeastFrequentlyUsed {
            capacity: self.page_size as nat,
            table: entries(self.frequency),
        }
    }

    open spec fn wf(&self) -> bool {
        self.queue@ == pages_of(entries(self.frequency))
    }

    fn page_in(&mut self, page: u32) -> (faulted: bool) {
        let ghost table = entries(self.frequency);
        proof {
            lemma_page_in_valid(self.state(), page);
        }
        match position(&self.queue, page) {
            Some(at) => {
                proof {
                    assert(pages_of(table)[at as int] == page);
                    assert(pages_of(table).index_of(page) == at);
                }
                let uses = match table_get(&self.frequency, page) {
                    Some(uses) => uses,
                    None => 0,
                };
                table_insert(&mut self.frequency, page, uses + 1);
                proof {
                    assert(pages_of(entries(self.frequency)) =~= pages_of(table));
                }
                false
            },
            None => {
                assert(lacks(table, page)) by {
                    assert forall|i: int| 0 <= i < table.len() implies (#[trigger] table[i]).0
                        != page by {
                        assert(pages_of(table)[i] == table[i].0);
                    }
                }
                if self.queue.len() != self.page_size {
                    self.queue.push(page);
                    table_insert(&mut self.frequency, page, 1);
                    proof {
                        assert(pages_of(table.push((page, 1u32))) =~= pages_of(table).push(page));
                    }
                } else {
                    let pairs = table_pairs(&self.frequency);
                    let victim = Self::pick_victim(&pairs);
                    let evicted = pairs[victim].0;
                    self.queue.remove(victim);
                    table_shift_remove(&mut self.frequency, evicted);
                    let ghost kept = table.remove(victim as int);
                    proof {
                        assert(pages_of(kept) =~= pages_of(table).remove(victim as int));
                        assert(lacks(kept, page)) by {
                            assert forall|i: int| 0 <= i < kept.len() implies (#[trigger] kept[i]).0
                                != page by {
                                if i < victim {
                                    assert(kept[i] == table[i]);
                                } else {
                                    assert(kept[i] == table[i + 1]);
                                }
                            }
                        }
                    }
                    self.queue.push(page);
                    table_insert(&mut self.frequency, page, 1);
                    proof {
                        assert(pages_of(kept.push((page, 1u32))) =~= pages_of(kept).push(page));
                    }
                }
                true
            },
        }
    }
}

/// One of the replacement policies, chosen at run time.
#[derive(Debug)]
pub enum Pager {
    FirstInFirstOut(FirstInFirstOut),
    LeastFrequentlyUsed(LeastFrequentlyUsed),
}

/// Whether no page stands twice in `frames`.
fn has_no_duplicates(frames: &Vec<u32>) -> (distinct: bool)
    ensures
        distinct == frames@.no_duplicates(),
{
    let mut j: usize = 0;
    while j < frames.len()
        invariant
            j <= frames.len(),
            forall|a: int, b: int| 0 <= a < b < j ==> frames@[a] != frames@[b],
        decreases frames.len() - j,
    {
        let mut i: usize = 0;
        while i < j
            invariant
                i <= j < frames.len(),
                forall|a: int| 0 <= a < i ==> frames@[a] != frames@[j as int],
            decreases j - i,
        {
            if frames[i] == frames[j] {
                return false;
            }
            i += 1;
        }
        j += 1;
    }
    proof {
        assert forall|a: int, b: int| 0 <= a < frames@.len() && 0 <= b < frames@.len() && a
            != b implies frames@[a] != frames@[b] by {
            if a < b {
                assert(frames@[a] != frames@[b]);
            } else {
                assert(frames@[b] != frames@[a]);
            }
        }
    }
    true
}

impl FirstInFirstOut {
    /// Whether the state is valid: no page is resident twice and the frames
    /// suffice.
    pub fn is_sound(&self) -> (sound: bool)
        ensures
            sound == (self.wf() && self.state().valid()),
    {
        self.queue.len() <= self.page_size && has_no_duplicates(&self.queue)
    }
}

impl LeastFrequentlyUsed {
    /// Whether the queue and the frequency table agree and the state is
    /// valid.
    pub fn is_sound(&self) -> (sound: bool)
        ensures
            sound == (self.wf() && self.state().valid()),
    {
        let pairs = table_pairs(&self.frequency);
        if pairs.len() != self.queue.len() || self.queue.len() > self.page_size {
            proof {
                assert(pages_of(pairs@).len() == pairs@.len());
            }
            return false;
        }
        let mut i: usize = 0;
        while i < pairs.len()
            invariant
                i <= pairs.len(),
                pairs@.len() == self.queue@.len(),
                pairs@ == entries(self.frequency),
                forall|j: int|
                    0 <= j < i ==> (#[trigger] pairs@[j]).0 == self.queue@[j] && pairs@[j].1 >= 1,
            decreases pairs.len() - i,
        {
            if pairs[i].0 != self.queue[i] || pairs[i].1 < 1 {
                proof {
                    assert(pages_of(pairs@)[i as int] == pairs@[i as int].0);
                }
                return false;
            }
            i += 1;
        }
        proof {
            assert(self.queue@ =~= pages_of(pairs@));
        }
        has_no_duplicates(&self.queue)
    }

    /// The largest use count of the table, 0 for an empty one.
    pub fn most_uses(&self) -> (most: u32)
        ensures
            forall|i: int|
                0 <= i < entries(self.frequency).len() ==> (#[trigger] entries(
                    self.frequency,
                )[i]).1 <= most,
            most == 0 || exists|i: int|
                0 <= i < entries(self.frequency).len() && (#[trigger] entries(
                    self.frequency,
                )[i]).1 == most,
    {
        let pairs = table_pairs(&self.frequency);
        let mut most: u32 = 0;
        let mut i: usize = 0;
        while i < pairs.len()
            invariant
                i <= pairs.len(),
                pairs@ == entries(self.frequency),
                forall|j: int| 0 <= j < i ==> (#[trigger] pairs@[j]).1 <= most,
                most == 0 || exists|j: int| 0 <= j < i && (#[trigger] pairs@[j]).1 == most,
            decreases pairs.len() - i,
        {
            if pairs[i].1 > most {
                most = pairs[i].1;
            }
            i += 1;
        }
        most
    }
}

impl Pager {
    /// Whether the pager's fields agree and its state is valid.
    pub fn is_sound(&self) -> (sound: bool)
        ensures
            sound == (self.wf() && self.state().valid()),
    {
        match self {
            Pager::FirstInFirstOut(pager) => pager.is_sound(),
            Pager::LeastFrequentlyUsed(pager) => pager.is_sound(),
        }
    }

    /// The number of frames.
    pub fn capacity(&self) -> (frames: usize)
        ensures
            frames == self.state().capacity(),
    {
        match self {
            Pager::FirstInFirstOut(pager) => pager.page_size,
            Pager::LeastFrequentlyUsed(pager) => pager.page_size,
        }
    }

    /// The largest use count that the pager keeps, 0 where it keeps none.
    pub fn most_uses(&self) -> (most: u32)
        ensures
            self.state().uses_at_most(most as nat),
            forall|bound: nat| self.state().uses_at_most(bound) ==> most <= bound,
    {
        match self {
            Pager::FirstInFirstOut(_) => 0,
            Pager::LeastFrequentlyUsed(pager) => {
                let most = pager.most_uses();
                proof {
                    let table = entries(pager.frequency);
                    assert forall|bound: nat| self.state().uses_at_most(bound) implies most
                        <= bound by {
                        assert(self.state()->LeastFrequentlyUsed_table == table);
                        if most != 0 {
                            let i = choose|i: int|
                                0 <= i < table.len() && (#[trigger] table[i]).1 == most;
                            assert(table[i].1 <= bound);
                        }
                    }
                }
                most
            },
        }
    }
}

impl PagingAlgorithm for Pager {
    open spec fn state(&self) -> PagerState {
        match self {
            Pager::FirstInFirstOut(pager) => pager.state(),
            Pager::LeastFrequentlyUsed(pager) => pager.state(),
        }
    }

    open spec fn wf(&self) -> bool {
        match self {
            Pager::FirstInFirstOut(pager) => pager.wf(),
            Pager::LeastFrequentlyUsed(pager) => pager.wf(),
        }
    }

    fn page_in(&mut self, page: u32) -> (faulted: bool) {
        match self {
            Pager::FirstInFirstOut(pager) => pager.page_in(page),
            Pager::LeastFrequentlyUsed(pager) => pager.page_in(page),
        }
    }
}

} // verus!
