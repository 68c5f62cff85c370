use os_sim::custom_gen::{
    belady_anomaly, frequent_page, high_burst_first_then_low, low_burst_with_spikes,
    repeating_pages_sequence,
};
use os_sim::scheduler::Process;
use os_sim::sorting::stable_sort;
use os_sim::text::append_decimal;

fn process(pid: u32, arrival: u32, burst: u32) -> Process {
    Process { pid, arrival, burst }
}

#[test]
fn belady_anomaly_repeats_the_known_sequence() {
    let once = vec![3, 2, 1, 0, 3, 2, 4, 3, 2, 1, 0, 4];
    assert_eq!(belady_anomaly(12), once);
    assert_eq!(belady_anomaly(23), once);
    assert_eq!(belady_anomaly(24), [once.clone(), once.clone()].concat());
    assert!(belady_anomaly(11).is_empty());
    assert!(belady_anomaly(0).is_empty());
    assert_eq!(belady_anomaly(50).len(), 48);
}

#[test]
fn repeating_pages_sequence_fits_whole_repetitions() {
    assert_eq!(repeating_pages_sequence(&[1, 2, 3, 4, 5], 12), vec![1, 2, 3, 4, 5, 1, 2, 3, 4, 5]);
    assert_eq!(repeating_pages_sequence(&[7], 3), vec![7, 7, 7]);
    assert!(repeating_pages_sequence(&[1, 2, 3], 2).is_empty());
    assert_eq!(repeating_pages_sequence(&[1, 2, 3, 4, 5], 400).len(), 400);
}

#[test]
fn low_burst_with_spikes_puts_a_long_burst_at_every_sixteenth_place() {
    let bursts: Vec<u32> = (0..40).map(|i| i % 5).collect();
    let processes = low_burst_with_spikes(40, &bursts);
    assert_eq!(processes.len(), 40);
    for (i, p) in processes.iter().enumerate() {
        let expected = if i % 16 == 0 { 25 } else { bursts[i] };
        assert_eq!(*p, process(i as u32, i as u32, expected));
    }
    assert_eq!(processes[0].burst, 25);
    assert_eq!(processes[16].burst, 25);
    assert_eq!(processes[32].burst, 25);
    assert_eq!(processes[17].burst, 2);
}

#[test]
fn low_burst_with_spikes_is_as_long_as_its_bursts_allow() {
    assert!(low_burst_with_spikes(0, &vec![1, 2]).is_empty());
    assert!(low_burst_with_spikes(-3, &vec![1, 2]).is_empty());
    assert_eq!(low_burst_with_spikes(5, &vec![1, 2]), vec![process(0, 0, 25), process(1, 1, 2)]);
    assert_eq!(low_burst_with_spikes(1, &vec![1, 2]), vec![process(0, 0, 25)]);
}

#[test]
fn high_burst_first_then_low_starts_with_the_long_process() {
    let processes = high_burst_first_then_low(4, &vec![3, 1, 4, 1, 5]);
    assert_eq!(
        processes,
        vec![process(0, 0, 100), process(1, 1, 3), process(2, 2, 1), process(3, 3, 4)]
    );
}

#[test]
fn high_burst_first_then_low_always_has_the_first_process() {
    assert_eq!(high_burst_first_then_low(0, &vec![3]), vec![process(0, 0, 100)]);
    assert_eq!(high_burst_first_then_low(-1, &Vec::new()), vec![process(0, 0, 100)]);
    assert_eq!(high_burst_first_then_low(1, &vec![3]), vec![process(0, 0, 100)]);
    assert_eq!(
        high_burst_first_then_low(9, &vec![3, 8]),
        vec![process(0, 0, 100), process(1, 1, 3), process(2, 2, 8)]
    );
}

#[test]
fn frequent_page_adds_the_zeros_and_keeps_the_pages() {
    let pages: Vec<u32> = (1..=60).collect();
    let mut differed = false;
    for _ in 0..10 {
        let trace = frequent_page(pages.clone(), 40);
        assert_eq!(trace.len(), 100);
        assert_eq!(trace.iter().filter(|p| **p == 0).count(), 40);
        let mut rest: Vec<u32> = trace.iter().copied().filter(|p| *p != 0).collect();
        if rest != pages {
            differed = true;
        }
        rest.sort();
        assert_eq!(rest, pages);
    }
    // ten shuffles of a hundred pages do not all leave them in place
    assert!(differed);
}

#[test]
fn frequent_page_without_pages_or_zeros() {
    assert!(frequent_page(Vec::new(), 0).is_empty());
    assert_eq!(frequent_page(Vec::new(), 3), vec![0, 0, 0]);
    assert_eq!(frequent_page(vec![9], 0), vec![9]);
}

#[test]
fn stable_sort_sorts_numbers() {
    let mut numbers: Vec<u32> = vec![5, 3, 9, 3, 0, u32::MAX, 7, 5];
    stable_sort(&mut numbers);
    assert_eq!(numbers, vec![0, 3, 3, 5, 5, 7, 9, u32::MAX]);
    let mut empty: Vec<u32> = Vec::new();
    stable_sort(&mut empty);
    assert!(empty.is_empty());
    let mut sorted: Vec<u32> = vec![1, 2, 3];
    stable_sort(&mut sorted);
    assert_eq!(sorted, vec![1, 2, 3]);
    let mut reversed: Vec<u32> = (0..100).rev().collect();
    stable_sort(&mut reversed);
    assert_eq!(reversed, (0..100).collect::<Vec<u32>>());
}

#[test]
fn append_decimal_writes_digits_without_leading_zeros() {
    let mut text = String::from("n=");
    append_decimal(&mut text, 0);
    assert_eq!(text, "n=0");
    append_decimal(&mut text, 7);
    append_decimal(&mut text, 10);
    append_decimal(&mut text, 1234567890);
    append_decimal(&mut text, u32::MAX);
    assert_eq!(text, "n=071012345678904294967295");
    for n in [9u32, 99, 100, 101, 65535, 1000000] {
        let mut single = String::new();
        append_decimal(&mut single, n);
        assert_eq!(single, n.to_string());
    }
}
