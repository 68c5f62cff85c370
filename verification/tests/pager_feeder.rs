use os_sim::custom_gen::belady_anomaly;
use os_sim::pager_gen::{count_faults, Feeder, WorkloadError};
use os_sim::paging::{FirstInFirstOut, LeastFrequentlyUsed, Pager};

fn fifo_faults(capacity: usize, pages: &Vec<u32>) -> usize {
    let mut pager = FirstInFirstOut::new(capacity);
    count_faults(&mut pager, pages)
}

fn lfu_faults(capacity: usize, pages: &Vec<u32>) -> usize {
    let mut pager = LeastFrequentlyUsed::new(capacity);
    count_faults(&mut pager, pages)
}

#[test]
fn fifo_three_frames_reference_trace() {
    let pages = vec![1, 2, 3, 2, 4, 2, 1, 3, 2, 1];
    let mut pager = FirstInFirstOut::new(3);
    assert_eq!(count_faults(&mut pager, &pages), 6);
    assert_eq!(pager.queue, vec![4, 1, 2]);
}

#[test]
fn fifo_reference_trace_by_capacity() {
    let pages = vec![1, 2, 3, 2, 4, 2, 1, 3, 2, 1];
    let faults: Vec<usize> = (1..6).map(|k| fifo_faults(k, &pages)).collect();
    assert_eq!(faults, vec![10, 9, 6, 4, 4]);
}

#[test]
fn lfu_reference_trace_by_capacity() {
    let pages = vec![1, 2, 3, 2, 4, 2, 1, 3, 2, 1];
    let faults: Vec<usize> = (1..6).map(|k| lfu_faults(k, &pages)).collect();
    assert_eq!(faults, vec![10, 7, 6, 4, 4]);
}

#[test]
fn lfu_belady_reference_with_three_then_four_frames() {
    let pages = vec![3, 2, 1, 0, 3, 2, 4, 3, 2, 1, 0, 4];
    let mut three = LeastFrequentlyUsed::new(3);
    assert_eq!(count_faults(&mut three, &pages), 10);
    assert_eq!(three.queue, vec![3, 2, 4]);
    let mut four = LeastFrequentlyUsed::new(4);
    assert_eq!(count_faults(&mut four, &pages), 8);
    assert_eq!(four.queue, vec![3, 2, 0, 4]);
}

#[test]
fn fifo_belady_reference_faults_more_with_four_frames() {
    let pages = vec![3, 2, 1, 0, 3, 2, 4, 3, 2, 1, 0, 4];
    assert_eq!(fifo_faults(3, &pages), 9);
    assert_eq!(fifo_faults(4, &pages), 10);
    assert!(fifo_faults(4, &pages) > fifo_faults(3, &pages));
}

#[test]
fn repeated_belady_reference_by_capacity() {
    let pages = belady_anomaly(50);
    assert_eq!(pages.len(), 48);
    let fifo: Vec<usize> = (1..6).map(|k| fifo_faults(k, &pages)).collect();
    let lfu: Vec<usize> = (1..6).map(|k| lfu_faults(k, &pages)).collect();
    assert_eq!(fifo, vec![48, 48, 36, 40, 5]);
    assert_eq!(lfu, vec![48, 48, 28, 26, 5]);
}

#[test]
fn count_faults_on_an_empty_trace_is_zero() {
    let mut pager = LeastFrequentlyUsed::new(2);
    assert_eq!(count_faults(&mut pager, &Vec::new()), 0);
    assert!(pager.queue.is_empty());
}

#[test]
fn count_faults_continues_from_the_pager_state() {
    let mut pager = FirstInFirstOut::new(2);
    assert_eq!(count_faults(&mut pager, &vec![1, 2]), 2);
    assert_eq!(count_faults(&mut pager, &vec![1, 2, 3]), 1);
    assert_eq!(pager.queue, vec![2, 3]);
}

#[test]
fn pager_feeder_default_holds_the_reference_trace() {
    let feeder = Feeder::default();
    assert_eq!(feeder.pages, vec![1, 2, 3, 2, 4, 2, 1, 3, 2, 1]);
    assert!(feeder.functions.is_empty());
}

#[test]
fn pager_feeder_counts_faults_of_every_pager() {
    let mut feeder = Feeder::default();
    for n in 2..=5 {
        feeder.add_function(Pager::FirstInFirstOut(FirstInFirstOut::new(n)));
        feeder.add_function(Pager::LeastFrequentlyUsed(LeastFrequentlyUsed::new(n)));
    }
    assert!(feeder.is_runnable());
    assert_eq!(feeder.feed(), vec![9, 7, 6, 6, 4, 4, 4, 4]);
    assert_eq!(feeder.pages, vec![1, 2, 3, 2, 4, 2, 1, 3, 2, 1]);
    assert_eq!(feeder.functions.len(), 8);
}

#[test]
fn pager_feeder_keeps_the_pagers_warm() {
    let mut feeder = Feeder::new(vec![1, 2, 3]);
    feeder.add_function(Pager::FirstInFirstOut(FirstInFirstOut::new(3)));
    feeder.add_function(Pager::LeastFrequentlyUsed(LeastFrequentlyUsed::new(3)));
    assert_eq!(feeder.feed(), vec![3, 3]);
    assert!(feeder.is_runnable());
    assert_eq!(feeder.feed(), vec![0, 0]);
}

#[test]
fn pager_feeder_is_not_runnable_without_a_frame() {
    let mut feeder = Feeder::new(vec![1, 2, 3]);
    assert!(feeder.is_runnable());
    feeder.add_function(Pager::FirstInFirstOut(FirstInFirstOut::new(0)));
    assert!(!feeder.is_runnable());
}

#[test]
fn pager_feeder_is_not_runnable_without_room_to_count() {
    let mut full = LeastFrequentlyUsed::new(2);
    full.queue.push(7);
    full.frequency.insert(7, u32::MAX - 2);
    assert!(full.is_sound());
    let mut feeder = Feeder::new(vec![7, 7, 7]);
    feeder.add_function(Pager::LeastFrequentlyUsed(full));
    assert!(!feeder.is_runnable());
    feeder.pages = vec![7, 7];
    assert!(feeder.is_runnable());
    assert_eq!(feeder.feed(), vec![0]);
    match &feeder.functions[0] {
        Pager::LeastFrequentlyUsed(pager) => assert_eq!(pager.most_uses(), u32::MAX),
        Pager::FirstInFirstOut(_) => panic!("the pager changed its kind"),
    }
}

#[test]
fn pager_feeder_is_not_runnable_with_an_unsound_pager() {
    let mut odd = FirstInFirstOut::new(2);
    odd.queue = vec![1, 1];
    let mut feeder = Feeder::new(vec![1]);
    feeder.add_function(Pager::FirstInFirstOut(odd));
    assert!(!feeder.is_runnable());
}

#[test]
fn pages_are_written_as_a_compact_json_array() {
    assert_eq!(Feeder::default().to_serialized_pages(), "[1,2,3,2,4,2,1,3,2,1]");
    assert_eq!(Feeder::new(Vec::new()).to_serialized_pages(), "[]");
    assert_eq!(Feeder::new(vec![0, 4294967295, 10]).to_serialized_pages(), "[0,4294967295,10]");
}

#[test]
fn pages_are_read_from_json() {
    let feeder = Feeder::from_deserialized_pages("[3, 2,1 ,0]".to_string()).ok().unwrap();
    assert_eq!(feeder.pages, vec![3, 2, 1, 0]);
    assert!(feeder.functions.is_empty());
    let empty = Feeder::from_deserialized_pages(" [ ] ".to_string()).ok().unwrap();
    assert!(empty.pages.is_empty());
}

#[test]
fn malformed_json_is_an_error() {
    for text in ["", "[1,2", "{\"pages\":[1]}", "[1,-2]", "[1,4294967296]", "[1.5]", "[\"1\"]", "1"] {
        match Feeder::from_deserialized_pages(text.to_string()) {
            Err(WorkloadError::Malformed) => {}
            Ok(_) => panic!("accepted {}", text),
        }
    }
}

#[test]
fn written_pages_read_back_the_same() {
    let traces: Vec<Vec<u32>> =
        vec![Vec::new(), vec![0], vec![1, 2, 3, 2, 4, 2, 1, 3, 2, 1], vec![u32::MAX, 0, u32::MAX], belady_anomaly(100)];
    for trace in traces {
        let text = Feeder::new(trace.clone()).to_serialized_pages();
        let read = Feeder::from_deserialized_pages(text).ok().unwrap();
        assert_eq!(read.pages, trace);
    }
}
