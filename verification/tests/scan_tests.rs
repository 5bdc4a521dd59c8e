use mole::iprange::Ipv4Network;
use mole::scan::{parse_server_list, Orchestrator, WorkSource};

#[test]
fn discovery_source_is_the_full_product_in_order() {
    let net = Ipv4Network::from_str("10.0.0.0/30").unwrap();
    let ports: Vec<u16> = vec![3128, 8080];
    let mut source = WorkSource::from_range(&net, &ports);
    let mut got = Vec::new();
    while let Some(c) = source.pop() {
        got.push(c);
    }
    let expected: Vec<(u32, u16)> = vec![
        (0x0A000000, 3128),
        (0x0A000000, 8080),
        (0x0A000001, 3128),
        (0x0A000001, 8080),
        (0x0A000002, 3128),
        (0x0A000002, 8080),
        (0x0A000003, 3128),
        (0x0A000003, 8080),
    ];
    assert_eq!(got, expected);
    assert_eq!(source.pop(), None);
}

#[test]
fn reverification_source_keeps_given_order() {
    let servers: Vec<(u32, u16)> = vec![(9, 80), (7, 443), (9, 80)];
    let mut source = WorkSource::from_items(servers.clone());
    assert_eq!(source.remaining(), 3);
    assert_eq!(source.pop(), Some((9, 80)));
    assert_eq!(source.pop(), Some((7, 443)));
    assert_eq!(source.pop(), Some((9, 80)));
    assert_eq!(source.pop(), None);
    assert_eq!(source.pop(), None);
}

fn run_simulated_scan(k: u32, workers: usize) {
    // k candidates, `workers` workers taking turns: every candidate is
    // pulled once and settles exactly once, so outcomes total k
    let items: Vec<(u32, u16)> = (0..k).map(|i| (i, 8080u16)).collect();
    let mut orch = Orchestrator::new(WorkSource::from_items(items));
    assert_eq!(orch.total, k as usize);

    // each worker's held candidate, None when idle
    let mut held: Vec<Option<(u32, u16)>> = vec![None; workers];
    let mut exhausted = false;
    while !exhausted || held.iter().any(|h| h.is_some()) {
        for w in 0..workers {
            match held[w].take() {
                Some((host, _port)) => {
                    // even hosts verify, odd ones fail
                    if host % 2 == 0 {
                        orch.report_recorded();
                    } else {
                        orch.report_disabled();
                    }
                },
                None => {
                    if !exhausted {
                        match orch.take() {
                            Some(c) => held[w] = Some(c),
                            None => exhausted = true,
                        }
                    }
                },
            }
        }
    }
    assert_eq!(orch.recorded + orch.disabled, k as usize);
    assert_eq!(orch.in_flight, 0);
    assert_eq!(orch.recorded, ((k + 1) / 2) as usize);
    assert_eq!(orch.disabled, (k / 2) as usize);
    assert_eq!(orch.progress_percent(), 100);
}

#[test]
fn every_candidate_settles_with_one_worker() {
    run_simulated_scan(50, 1);
}

#[test]
fn every_candidate_settles_with_four_workers() {
    run_simulated_scan(50, 4);
}

#[test]
fn every_candidate_settles_with_sixteen_workers() {
    run_simulated_scan(50, 16);
}

#[test]
fn progress_never_exceeds_one_hundred_and_ends_there() {
    let items: Vec<(u32, u16)> = (0..7u32).map(|i| (i, 80u16)).collect();
    let mut orch = Orchestrator::new(WorkSource::from_items(items));
    assert_eq!(orch.progress_percent(), 0);
    let mut seen = Vec::new();
    while let Some(_c) = orch.take() {
        let p = orch.progress_percent();
        assert!(p <= 100);
        seen.push(p);
        orch.report_recorded();
    }
    // 1/7 .. 7/7 of a hundred, rounded down
    assert_eq!(seen, vec![14, 28, 42, 57, 71, 85, 100]);
    assert_eq!(orch.progress_percent(), 100);
}

#[test]
fn empty_scan_is_immediately_complete() {
    let orch = Orchestrator::new(WorkSource::from_items(Vec::new()));
    assert_eq!(orch.total, 0);
    assert_eq!(orch.progress_percent(), 100);
}

#[test]
fn import_list_keeps_good_lines_and_drops_the_rest() {
    let content = "10.0.0.1:8080\nbad line\n10.0.0.2:99999\n10.0.0.3:3128\r\n:80\nhost:\n";
    let entries = parse_server_list(content);
    assert_eq!(
        entries,
        vec![
            ("10.0.0.1".to_string(), 8080u16),
            ("10.0.0.3".to_string(), 3128u16),
            ("".to_string(), 80u16),
        ]
    );
}

#[test]
fn import_line_takes_first_two_colon_pieces() {
    let entries = parse_server_list("example.org:80:extra");
    assert_eq!(entries, vec![("example.org".to_string(), 80u16)]);
}
