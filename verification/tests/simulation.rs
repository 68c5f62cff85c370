use os_sim::horizon::fits_clock;
use os_sim::scheduler::{FirstComeFirstServe, Process, RoundRobin, Scheduler};
use os_sim::scheduler_gen::{
    generate_arrival_times, generic_test_data, parse_test_data, totals, ConfigError, Feeder,
};
use os_sim::simulation::{find_process, has_distinct_pids, run, simulate, OutputProcessEntry};

fn process(pid: u32, arrival: u32, burst: u32) -> Process {
    Process { pid, arrival, burst }
}

fn entry(pid: u32, arrival: u32, burst: u32, turnaround: u32, waiting: u32) -> OutputProcessEntry {
    OutputProcessEntry { pid, arrival, burst, turnaround, waiting }
}

fn run_fcfs(processes: &Vec<Process>) -> Vec<OutputProcessEntry> {
    assert!(has_distinct_pids(processes) && fits_clock(processes));
    let mut cpu = FirstComeFirstServe::new();
    let output = simulate(&mut cpu, processes);
    assert!(cpu.stack.is_empty());
    output
}

fn run_round_robin(quantum: u32, processes: &Vec<Process>) -> Vec<OutputProcessEntry> {
    assert!(has_distinct_pids(processes) && fits_clock(processes));
    let mut cpu = RoundRobin::new(quantum);
    let output = simulate(&mut cpu, processes);
    assert!(cpu.stack.is_empty());
    assert_eq!(cpu.quantum_timer, 0);
    output
}

#[test]
fn measure_applies_the_clock_offset() {
    let measured = OutputProcessEntry::measure(process(3, 2, 1), 10);
    assert_eq!(measured, entry(3, 2, 1, 6, 5));
    let immediate = OutputProcessEntry::measure(process(7, 0, 0), 2);
    assert_eq!(immediate, entry(7, 0, 0, 0, 0));
}

#[test]
fn fcfs_five_processes_complete_in_pid_order() {
    let output = run_fcfs(&generic_test_data());
    assert_eq!(
        output,
        vec![
            entry(1, 0, 4, 4, 0),
            entry(2, 1, 3, 6, 3),
            entry(3, 2, 1, 6, 5),
            entry(4, 3, 2, 7, 5),
            entry(5, 4, 5, 11, 6),
        ]
    );
}

#[test]
fn round_robin_two_five_processes() {
    let output = run_round_robin(2, &generic_test_data());
    assert_eq!(
        output,
        vec![
            entry(3, 2, 1, 3, 2),
            entry(1, 0, 4, 7, 3),
            entry(4, 3, 2, 6, 4),
            entry(2, 1, 3, 11, 8),
            entry(5, 4, 5, 11, 6),
        ]
    );
}

#[test]
fn round_robin_one_five_processes() {
    let output = run_round_robin(1, &generic_test_data());
    assert_eq!(
        output,
        vec![
            entry(3, 2, 1, 2, 1),
            entry(2, 1, 3, 8, 5),
            entry(4, 3, 2, 7, 5),
            entry(1, 0, 4, 11, 7),
            entry(5, 4, 5, 11, 6),
        ]
    );
}

#[test]
fn round_robin_with_a_long_quantum_is_first_come_first_serve() {
    let workload = generic_test_data();
    assert_eq!(run_round_robin(5, &workload), run_fcfs(&workload));
}

#[test]
fn empty_workload_reports_nothing() {
    assert!(run_fcfs(&Vec::new()).is_empty());
    assert!(run_round_robin(2, &Vec::new()).is_empty());
}

#[test]
fn zero_burst_completes_immediately() {
    assert_eq!(run_fcfs(&vec![process(7, 0, 0)]), vec![entry(7, 0, 0, 0, 0)]);
    assert_eq!(
        run_fcfs(&vec![process(7, 0, 0), process(8, 0, 0), process(3, 0, 2)]),
        vec![entry(7, 0, 0, 0, 0), entry(8, 0, 0, 1, 1), entry(3, 0, 2, 3, 1)]
    );
}

#[test]
fn run_waits_for_a_late_arrival() {
    let output = run_round_robin(2, &vec![process(1, 0, 3), process(2, 0, 0), process(3, 5, 1)]);
    assert_eq!(output, vec![entry(2, 0, 0, 3, 3), entry(1, 0, 3, 4, 1), entry(3, 5, 1, 1, 0)]);
}

#[test]
fn fcfs_completes_in_admission_order() {
    let workload = vec![process(1, 3, 2), process(2, 0, 2), process(3, 0, 1), process(4, 3, 1)];
    let output = run_fcfs(&workload);
    let order: Vec<u32> = output.iter().map(|e| e.pid).collect();
    // those present at the start in workload order, then the later ones
    assert_eq!(order, vec![2, 3, 1, 4]);
    for pair in output.windows(2) {
        assert!(pair[0].arrival <= pair[1].arrival);
    }
    assert_eq!(
        output,
        vec![entry(2, 0, 2, 2, 0), entry(3, 0, 1, 3, 2), entry(1, 3, 2, 2, 0), entry(4, 3, 1, 3, 2)]
    );
}

#[test]
fn fcfs_equal_bursts_complete_by_arrival() {
    let workload =
        vec![process(5, 4, 3), process(1, 9, 3), process(9, 0, 3), process(2, 2, 3), process(7, 2, 3)];
    let order: Vec<u32> = run_fcfs(&workload).iter().map(|e| e.pid).collect();
    assert_eq!(order, vec![9, 2, 7, 5, 1]);
}

#[test]
fn waiting_is_turnaround_less_burst() {
    let workload = vec![
        process(1, 0, 6),
        process(2, 0, 1),
        process(3, 2, 0),
        process(4, 2, 9),
        process(5, 30, 4),
        process(6, 31, 2),
    ];
    let mut outputs = vec![run_fcfs(&workload)];
    for quantum in 0..5 {
        outputs.push(run_round_robin(quantum, &workload));
    }
    for output in outputs {
        assert_eq!(output.len(), workload.len());
        for e in output {
            assert_eq!(e.waiting, e.turnaround - e.burst);
            assert!(workload.contains(&process(e.pid, e.arrival, e.burst)));
        }
    }
}

#[test]
fn running_twice_gives_the_same_entries() {
    let workload = generic_test_data();
    let mut cpu = RoundRobin::new(2);
    let first = simulate(&mut cpu, &workload);
    let second = simulate(&mut cpu, &workload);
    assert_eq!(first, second);
    let mut other = RoundRobin::new(2);
    assert_eq!(simulate(&mut other, &workload.clone()), first);
}

#[test]
fn run_with_debug_reports_the_process_table_of_every_tick() {
    let workload = vec![process(1, 0, 2), process(2, 1, 1)];
    let mut cpu = FirstComeFirstServe::new();
    let report = run(&mut cpu, &workload, true);
    assert_eq!(report.entries, vec![entry(1, 0, 2, 2, 0), entry(2, 1, 1, 2, 1)]);
    assert_eq!(
        report.table,
        vec!["0;1;0;1;2", "1;1;0;1,2;1", "1;2;1;1,2;1", "2;1;0;1,2;0", "2;2;1;1,2;1", "3;2;1;2;0"]
    );
    let quiet = run(&mut cpu, &workload, false);
    assert_eq!(quiet.entries, report.entries);
    assert!(quiet.table.is_empty());
}

#[test]
fn feeder_in_debug_reports_the_tables() {
    let mut feeder = Feeder::from(vec![process(1, 0, 2), process(2, 1, 1)]);
    feeder.debug = true;
    feeder.add_function(Scheduler::RoundRobin(RoundRobin::new(1)));
    assert!(feeder.is_runnable());
    let outputs = feeder.feed();
    assert_eq!(outputs.len(), 1);
    assert_eq!(outputs[0].entries, vec![entry(2, 1, 1, 1, 0), entry(1, 0, 2, 3, 1)]);
    assert_eq!(
        outputs[0].table,
        vec!["0;1;0;1;2", "1;1;0;1,2;1", "1;2;1;1,2;1", "2;2;1;2,1;0", "2;1;0;2,1;1", "3;1;0;1;0"]
    );
}

#[test]
fn find_process_takes_the_first_with_the_pid() {
    let workload = vec![process(1, 0, 4), process(2, 1, 3), process(2, 9, 9)];
    assert_eq!(find_process(&workload, 2), Some(process(2, 1, 3)));
    assert_eq!(find_process(&workload, 1), Some(process(1, 0, 4)));
    assert_eq!(find_process(&workload, 3), None);
    assert_eq!(find_process(&Vec::new(), 0), None);
}

#[test]
fn distinct_pids_are_recognized() {
    assert!(has_distinct_pids(&Vec::new()));
    assert!(has_distinct_pids(&generic_test_data()));
    assert!(!has_distinct_pids(&vec![process(1, 0, 4), process(2, 1, 3), process(1, 5, 0)]));
}

#[test]
fn horizon_must_fit_the_clock() {
    assert!(fits_clock(&Vec::new()));
    assert!(fits_clock(&generic_test_data()));
    // last arrival 10, one tick, and 2 + burst for the process
    assert!(fits_clock(&vec![process(1, 10, u32::MAX - 13)]));
    assert!(!fits_clock(&vec![process(1, 10, u32::MAX - 12)]));
    assert!(!fits_clock(&vec![process(1, u32::MAX, 0)]));
    assert!(fits_clock(&vec![process(1, u32::MAX - 3, 0)]));
    assert!(!fits_clock(&vec![process(1, 0, u32::MAX), process(2, 0, u32::MAX)]));
}

#[test]
fn generic_test_data_is_the_five_process_workload() {
    assert_eq!(
        generic_test_data(),
        vec![
            process(1, 0, 4),
            process(2, 1, 3),
            process(3, 2, 1),
            process(4, 3, 2),
            process(5, 4, 5),
        ]
    );
}

#[test]
fn parse_test_data_writes_header_and_rows() {
    assert_eq!(
        parse_test_data(&generic_test_data()),
        "PID;Arrival;Burst\n1;0;4\n2;1;3\n3;2;1\n4;3;2\n5;4;5\n"
    );
    assert_eq!(parse_test_data(&[]), "PID;Arrival;Burst\n");
}

#[test]
fn parse_output_sorts_by_pid_and_appends_the_averages() {
    let output = vec![
        entry(3, 2, 1, 3, 2),
        entry(1, 0, 4, 7, 3),
        entry(4, 3, 2, 6, 4),
        entry(2, 1, 3, 11, 8),
        entry(5, 4, 5, 11, 6),
    ];
    assert_eq!(
        Feeder::parse_output(output, "7.6", "4.6"),
        "PID;Arrival;Burst;Turnaround;Waiting\n1;0;4;7;3\n2;1;3;11;8\n3;2;1;3;2\n4;3;2;6;4\n5;4;5;11;6\nAverage;--;--;7.6;4.6\n"
    );
}

#[test]
fn parse_output_keeps_equal_pids_in_order() {
    let output = vec![entry(2, 0, 0, 9, 9), entry(1, 0, 0, 5, 5), entry(2, 0, 0, 1, 1)];
    assert_eq!(
        Feeder::parse_output(output, "5", "5"),
        "PID;Arrival;Burst;Turnaround;Waiting\n1;0;0;5;5\n2;0;0;9;9\n2;0;0;1;1\nAverage;--;--;5;5\n"
    );
}

#[test]
fn parse_output_of_nothing_has_header_and_averages() {
    assert_eq!(
        Feeder::parse_output(Vec::new(), "NaN", "NaN"),
        "PID;Arrival;Burst;Turnaround;Waiting\nAverage;--;--;NaN;NaN\n"
    );
}

#[test]
fn totals_add_up_turnaround_and_waiting() {
    let output = run_fcfs(&generic_test_data());
    assert_eq!(totals(&output), (34, 19));
    assert_eq!(totals(&Vec::new()), (0, 0));
    let large = vec![entry(1, 0, 0, u32::MAX, u32::MAX), entry(2, 0, 0, u32::MAX, 1)];
    assert_eq!(totals(&large), (2 * (u32::MAX as u128), u32::MAX as u128 + 1));
}

#[test]
fn arrival_range_must_not_be_reversed() {
    assert_eq!(generate_arrival_times(5, 10, 9), Err(ConfigError::InvalidArrivalRange));
    assert_eq!(generate_arrival_times(0, 1, 0), Err(ConfigError::InvalidArrivalRange));
    assert!(Feeder::new(3, 7, 2, vec![1, 2, 3]).is_err());
    assert_eq!(ConfigError::InvalidArrivalRange.message(), "range_start must be less than range_end");
}

#[test]
fn arrival_range_of_one_point_gives_that_point() {
    assert_eq!(generate_arrival_times(4, 6, 6), Ok(vec![6, 6, 6, 6]));
    assert_eq!(generate_arrival_times(0, 6, 6), Ok(Vec::new()));
}

#[test]
fn arrival_times_are_sorted_and_in_range() {
    let mut seen_different = false;
    for _ in 0..20 {
        let times = generate_arrival_times(200, 10, 100).unwrap();
        assert_eq!(times.len(), 200);
        for pair in times.windows(2) {
            assert!(pair[0] <= pair[1]);
        }
        for time in &times {
            assert!(10 <= *time && *time < 100);
        }
        if times.first() != times.last() {
            seen_different = true;
        }
    }
    assert!(seen_different);
    assert_eq!(generate_arrival_times(3, 41, 42), Ok(vec![41, 41, 41]));
}

#[test]
fn feeder_new_pairs_arrivals_with_bursts() {
    let feeder = Feeder::new(4, 5, 5, vec![9, 8, 7, 6]).ok().unwrap();
    assert_eq!(
        feeder.processes,
        vec![process(0, 5, 9), process(1, 5, 8), process(2, 5, 7), process(3, 5, 6)]
    );
    assert!(feeder.functions.is_empty());
    let short = Feeder::new(4, 5, 5, vec![9, 8]).ok().unwrap();
    assert_eq!(short.processes, vec![process(0, 5, 9), process(1, 5, 8)]);
    let fewer = Feeder::new(1, 5, 5, vec![9, 8]).ok().unwrap();
    assert_eq!(fewer.processes, vec![process(0, 5, 9)]);
}

#[test]
fn feeder_new_draws_sorted_arrivals() {
    let bursts: Vec<u32> = (0..50).collect();
    let feeder = Feeder::new(50, 0, 30, bursts).ok().unwrap();
    assert_eq!(feeder.processes.len(), 50);
    for (i, p) in feeder.processes.iter().enumerate() {
        assert_eq!(p.pid, i as u32);
        assert_eq!(p.burst, i as u32);
        assert!(p.arrival < 30);
    }
    for pair in feeder.processes.windows(2) {
        assert!(pair[0].arrival <= pair[1].arrival);
    }
    assert!(feeder.is_runnable());
}

#[test]
fn feeder_default_holds_the_generic_workload() {
    let feeder = Feeder::default();
    assert_eq!(feeder.processes, generic_test_data());
    assert!(feeder.functions.is_empty());
}

#[test]
fn feeder_from_takes_the_workload() {
    let feeder = Feeder::from(vec![process(4, 1, 1)]);
    assert_eq!(feeder.processes, vec![process(4, 1, 1)]);
    assert!(feeder.functions.is_empty());
}

#[test]
fn feeder_runs_every_scheduler_from_a_clock_of_zero() {
    let mut feeder = Feeder::default();
    feeder.add_function(Scheduler::FirstComeFirstServe(FirstComeFirstServe::new()));
    feeder.add_function(Scheduler::RoundRobin(RoundRobin::new(2)));
    feeder.add_function(Scheduler::RoundRobin(RoundRobin::new(5)));
    assert!(feeder.is_runnable());
    let outputs = feeder.feed();
    assert_eq!(outputs.len(), 3);
    assert_eq!(outputs[0].entries, run_fcfs(&generic_test_data()));
    assert_eq!(outputs[1].entries, run_round_robin(2, &generic_test_data()));
    assert_eq!(outputs[2], outputs[0]);
    for output in &outputs {
        assert!(output.table.is_empty());
    }
    assert_eq!(feeder.processes, generic_test_data());
}

#[test]
fn feeding_twice_gives_the_same_outputs() {
    let mut feeder = Feeder::default();
    feeder.add_function(Scheduler::FirstComeFirstServe(FirstComeFirstServe::new()));
    feeder.add_function(Scheduler::RoundRobin(RoundRobin::new(3)));
    let first = feeder.feed();
    assert!(feeder.is_runnable());
    let second = feeder.feed();
    assert_eq!(first, second);
}

#[test]
fn feeder_without_schedulers_returns_nothing() {
    let mut feeder = Feeder::default();
    assert!(feeder.is_runnable());
    assert!(feeder.feed().is_empty());
}

#[test]
fn feeder_is_not_runnable_with_repeated_pids_or_a_busy_scheduler() {
    let mut repeated = Feeder::from(vec![process(1, 0, 1), process(1, 2, 1)]);
    repeated.add_function(Scheduler::FirstComeFirstServe(FirstComeFirstServe::new()));
    assert!(!repeated.is_runnable());

    let mut busy = Feeder::default();
    let mut cpu = FirstComeFirstServe::new();
    cpu.stack.push(process(9, 0, 1));
    busy.add_function(Scheduler::FirstComeFirstServe(cpu));
    assert!(!busy.is_runnable());

    let mut charged = Feeder::default();
    let mut robin = RoundRobin::new(2);
    robin.quantum_timer = 1;
    charged.add_function(Scheduler::RoundRobin(robin));
    assert!(!charged.is_runnable());

    let mut endless = Feeder::from(vec![process(1, 0, u32::MAX)]);
    endless.add_function(Scheduler::RoundRobin(RoundRobin::new(2)));
    assert!(!endless.is_runnable());
}
