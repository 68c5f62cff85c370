use indexmap::IndexMap;
use os_sim::paging::{FirstInFirstOut, LeastFrequentlyUsed, Pager, PagingAlgorithm};

fn table(pairs: &[(u32, u32)]) -> IndexMap<u32, u32> {
    let mut map = IndexMap::new();
    for (page, uses) in pairs {
        map.insert(*page, *uses);
    }
    map
}

fn pairs_of(pager: &LeastFrequentlyUsed) -> Vec<(u32, u32)> {
    pager.frequency.iter().map(|(page, uses)| (*page, *uses)).collect()
}

#[test]
fn fifo_starts_empty() {
    let pager = FirstInFirstOut::new(3);
    assert!(pager.queue.is_empty());
    assert_eq!(pager.page_size, 3);
    assert!(pager.is_sound());
}

#[test]
fn fifo_admits_below_capacity() {
    let mut pager = FirstInFirstOut::new(3);
    assert!(pager.page_in(5));
    assert!(pager.page_in(6));
    assert_eq!(pager.queue, vec![5, 6]);
}

#[test]
fn fifo_resident_page_is_a_hit_below_capacity() {
    let mut pager = FirstInFirstOut::new(3);
    assert!(pager.page_in(5));
    assert!(!pager.page_in(5));
    assert_eq!(pager.queue, vec![5]);
}

#[test]
fn fifo_resident_page_is_a_hit_at_capacity() {
    let mut pager = FirstInFirstOut::new(2);
    pager.page_in(1);
    pager.page_in(2);
    assert!(!pager.page_in(1));
    assert_eq!(pager.queue, vec![1, 2]);
}

#[test]
fn fifo_evicts_the_oldest_page() {
    let mut pager = FirstInFirstOut::new(2);
    pager.page_in(1);
    pager.page_in(2);
    pager.page_in(1);
    assert!(pager.page_in(3));
    assert_eq!(pager.queue, vec![2, 3]);
}

#[test]
fn fifo_never_exceeds_its_capacity() {
    for capacity in 1..6usize {
        let mut pager = FirstInFirstOut::new(capacity);
        for step in 0..200u32 {
            let page = (step * 7 + step / 3) % 9;
            let resident = pager.queue.contains(&page);
            let faulted = pager.page_in(page);
            assert_eq!(faulted, !resident);
            assert!(pager.queue.len() <= capacity);
            assert!(pager.queue.contains(&page));
            assert!(pager.is_sound());
        }
    }
}

#[test]
fn fifo_with_one_frame_keeps_the_last_page() {
    let mut pager = FirstInFirstOut::new(1);
    assert!(pager.page_in(4));
    assert!(!pager.page_in(4));
    assert!(pager.page_in(5));
    assert_eq!(pager.queue, vec![5]);
}

#[test]
fn lfu_starts_empty() {
    let pager = LeastFrequentlyUsed::new(4);
    assert!(pager.queue.is_empty());
    assert!(pager.frequency.is_empty());
    assert_eq!(pager.page_size, 4);
    assert!(pager.is_sound());
    assert_eq!(pager.most_uses(), 0);
}

#[test]
fn lfu_admits_with_a_count_of_one() {
    let mut pager = LeastFrequentlyUsed::new(3);
    assert!(pager.page_in(8));
    assert!(pager.page_in(9));
    assert_eq!(pager.queue, vec![8, 9]);
    assert_eq!(pager.frequency, table(&[(8, 1), (9, 1)]));
    assert_eq!(pairs_of(&pager), vec![(8, 1), (9, 1)]);
}

#[test]
fn lfu_hit_counts_the_use_and_keeps_the_order() {
    let mut pager = LeastFrequentlyUsed::new(3);
    pager.page_in(8);
    pager.page_in(9);
    assert!(!pager.page_in(8));
    assert!(!pager.page_in(8));
    assert_eq!(pager.queue, vec![8, 9]);
    assert_eq!(pairs_of(&pager), vec![(8, 3), (9, 1)]);
    assert_eq!(pager.most_uses(), 3);
}

#[test]
fn lfu_evicts_the_least_used_page() {
    let mut pager = LeastFrequentlyUsed::new(3);
    for page in [1, 2, 3, 1, 3] {
        pager.page_in(page);
    }
    assert!(pager.page_in(4));
    assert_eq!(pager.queue, vec![1, 3, 4]);
    assert_eq!(pairs_of(&pager), vec![(1, 2), (3, 2), (4, 1)]);
}

#[test]
fn lfu_breaks_ties_by_age() {
    let mut pager = LeastFrequentlyUsed::new(3);
    for page in [5, 6, 7] {
        pager.page_in(page);
    }
    assert!(pager.page_in(8));
    assert_eq!(pager.queue, vec![6, 7, 8]);
    assert!(pager.page_in(9));
    assert_eq!(pager.queue, vec![7, 8, 9]);
    assert_eq!(pairs_of(&pager), vec![(7, 1), (8, 1), (9, 1)]);
}

#[test]
fn lfu_forgets_the_count_of_an_evicted_page() {
    let mut pager = LeastFrequentlyUsed::new(2);
    for page in [1, 1, 1, 2, 2, 3] {
        pager.page_in(page);
    }
    assert_eq!(pairs_of(&pager), vec![(1, 3), (3, 1)]);
    for page in [3, 3, 3, 2] {
        pager.page_in(page);
    }
    assert_eq!(pairs_of(&pager), vec![(3, 4), (2, 1)]);
}

#[test]
fn lfu_table_always_matches_the_frames() {
    for capacity in 1..6usize {
        let mut pager = LeastFrequentlyUsed::new(capacity);
        for step in 0..300u32 {
            let page = (step * 5 + step / 4) % 11;
            let resident = pager.queue.contains(&page);
            assert_eq!(pager.page_in(page), !resident);
            assert!(pager.queue.len() <= capacity);
            let keys: Vec<u32> = pager.frequency.keys().copied().collect();
            assert_eq!(keys, pager.queue);
            assert!(pager.is_sound());
        }
    }
}

#[test]
fn lfu_is_unsound_when_table_and_frames_disagree() {
    let mut pager = LeastFrequentlyUsed::new(3);
    pager.page_in(1);
    pager.queue.push(2);
    assert!(!pager.is_sound());
    pager.frequency.insert(2, 0);
    assert!(!pager.is_sound());
    pager.frequency.insert(2, 1);
    assert!(pager.is_sound());
}

#[test]
fn fifo_is_unsound_with_a_repeated_page() {
    let mut pager = FirstInFirstOut::new(3);
    pager.queue = vec![1, 2, 1];
    assert!(!pager.is_sound());
    pager.queue = vec![1, 2, 3, 4];
    assert!(!pager.is_sound());
}

#[test]
fn pager_enum_follows_its_variant() {
    let mut fifo = Pager::FirstInFirstOut(FirstInFirstOut::new(2));
    let mut lfu = Pager::LeastFrequentlyUsed(LeastFrequentlyUsed::new(2));
    assert_eq!(fifo.capacity(), 2);
    assert_eq!(lfu.capacity(), 2);
    let mut fifo_faults = 0;
    let mut lfu_faults = 0;
    for page in [1, 2, 1, 3, 1] {
        if fifo.page_in(page) {
            fifo_faults += 1;
        }
        if lfu.page_in(page) {
            lfu_faults += 1;
        }
    }
    assert_eq!(fifo_faults, 4);
    assert_eq!(lfu_faults, 3);
    assert_eq!(fifo.most_uses(), 0);
    assert_eq!(lfu.most_uses(), 3);
    assert!(fifo.is_sound());
    assert!(lfu.is_sound());
}
