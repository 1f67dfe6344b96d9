use cpu_hotplug::discovery::{discover, online_all_targets_of, CpuRecord, DiscoveryError};
use cpu_hotplug::policy::{Aggregate, ThresholdPolicy};
use cpu_hotplug::text::{control_bytes, parse_online, AttributeRead};
use cpu_hotplug::topology::{
    Decision, IdleSample, NoActionReason, SocketSummary, Topology, TransitionStatus, WriteOutcome,
};

fn record(id: usize, socket: Option<usize>, siblings: &[usize], online: bool) -> CpuRecord {
    CpuRecord {
        id,
        core_id: Some(id / 2),
        socket_id: socket,
        siblings: siblings.to_vec(),
        online,
        idle_states: vec!["state0".to_string(), "state1".to_string()],
    }
}

/// CPUs 0 to 3, sibling pairs {0,1} and {2,3}, one socket.
fn four_cpus(online: [bool; 4]) -> Topology {
    let recs = vec![
        record(0, Some(0), &[0, 1], online[0]),
        record(1, Some(0), &[0, 1], online[1]),
        record(2, Some(0), &[2, 3], online[2]),
        record(3, Some(0), &[2, 3], online[3]),
    ];
    discover(recs, 0).unwrap()
}

fn policy() -> ThresholdPolicy {
    ThresholdPolicy::new(85, 50).unwrap()
}

fn samples(ids: &[usize], idle_total: u64) -> Vec<IdleSample> {
    ids.iter().map(|&cpu| IdleSample { cpu, idle_total }).collect()
}

fn apply(t: &mut Topology, group: &[usize], target: bool) {
    for id in t.writes_for(&group.to_vec()) {
        assert_eq!(t.record_write(id, target, WriteOutcome::Written), TransitionStatus::Applied);
    }
}

#[test]
fn low_load_offlines_highest_sibling_group_and_spares_boot_group() {
    let mut t = four_cpus([true; 4]);
    // 30% busy: 700 ms idle in each 1 s interval.
    let d = t.run_cycle(1_000_000, &samples(&[0, 1, 2, 3], 700_000), &policy());
    assert_eq!(d, Decision::OfflineGroup(vec![2, 3]));
    apply(&mut t, &[2, 3], false);
    assert_eq!(t.online_ids(), vec![0, 1]);
    let d = t.run_cycle(2_000_000, &samples(&[0, 1], 1_400_000), &policy());
    assert_eq!(d, Decision::NoAction(NoActionReason::AtMinimum));
    assert_eq!(t.online_ids(), vec![0, 1]);
}

#[test]
fn highest_id_wins_among_offline_candidates() {
    // Four single-thread cores: the highest id goes first, then the next.
    let recs = vec![
        record(0, Some(0), &[0], true),
        record(1, Some(0), &[1], true),
        record(2, Some(0), &[2], true),
        record(3, Some(0), &[3], true),
    ];
    let mut t = discover(recs, 0).unwrap();
    assert_eq!(t.select_group_to_offline(), Some(vec![3]));
    apply(&mut t, &[3], false);
    assert_eq!(t.select_group_to_offline(), Some(vec![2]));
    apply(&mut t, &[2], false);
    assert_eq!(t.select_group_to_offline(), None);
}

#[test]
fn offline_selection_twice_never_repeats_an_offlined_group() {
    let mut t = four_cpus([true; 4]);
    let g = t.select_group_to_offline().unwrap();
    let before = t.online_ids().len();
    apply(&mut t, &g, false);
    let after = t.online_ids().len();
    assert!(after <= before);
    if let Some(g2) = t.select_group_to_offline() {
        assert!(g2.iter().all(|x| !g.contains(x)));
    }
}

#[test]
fn high_load_onlines_lowest_offline_group() {
    let t = four_cpus([true, false, false, false]);
    let load = Aggregate { total: 9_000, samples: 1 };
    assert_eq!(t.decide(&load, &policy()), Decision::OnlineGroup(vec![1]));
    let t = four_cpus([true, true, false, false]);
    assert_eq!(t.decide(&load, &policy()), Decision::OnlineGroup(vec![2, 3]));
}

#[test]
fn high_load_with_everything_online_is_at_maximum() {
    let t = four_cpus([true; 4]);
    assert_eq!(t.select_group_to_online(), None);
    let load = Aggregate { total: 9_000, samples: 1 };
    assert_eq!(t.decide(&load, &policy()), Decision::NoAction(NoActionReason::AtMaximum));
}

#[test]
fn thresholds_are_strict() {
    let t = four_cpus([true, true, false, false]);
    let p = policy();
    let at = |total: u128| t.decide(&Aggregate { total, samples: 1 }, &p);
    assert_eq!(at(5_000), Decision::NoAction(NoActionReason::Optimal));
    assert_eq!(at(8_500), Decision::NoAction(NoActionReason::Optimal));
    assert_eq!(at(4_990), Decision::NoAction(NoActionReason::AtMinimum));
    assert_eq!(at(8_510), Decision::OnlineGroup(vec![2, 3]));
    let t = four_cpus([true; 4]);
    assert_eq!(
        t.decide(&Aggregate { total: 4_990, samples: 1 }, &p),
        Decision::OfflineGroup(vec![2, 3])
    );
}

#[test]
fn no_samples_means_no_action() {
    let t = four_cpus([true; 4]);
    let d = t.decide(&Aggregate { total: 0, samples: 0 }, &policy());
    assert_eq!(d, Decision::NoAction(NoActionReason::NoSamples));
}

#[test]
fn cycle_without_elapsed_time_is_skipped() {
    let mut t = four_cpus([true; 4]);
    let d = t.run_cycle(0, &samples(&[0, 1, 2, 3], 0), &policy());
    assert_eq!(d, Decision::NoAction(NoActionReason::NoElapsedTime));
    assert_eq!(t.cpu(0).unwrap().utilization, 0);
}

#[test]
fn refresh_averages_fresh_samples_only() {
    let mut t = four_cpus([true, true, true, false]);
    // CPU 2 has no sample; CPU 3 is offline and its sample is ignored.
    let s = vec![
        IdleSample { cpu: 0, idle_total: 250_000 },
        IdleSample { cpu: 1, idle_total: 750_000 },
        IdleSample { cpu: 3, idle_total: 0 },
    ];
    let load = t.refresh(1_000_000, &s).unwrap();
    assert_eq!(load, Aggregate { total: 7_500 + 2_500, samples: 2 });
    assert_eq!(t.cpu(0).unwrap().utilization, 7_500);
    assert_eq!(t.cpu(0).unwrap().last_idle_total, 250_000);
    assert_eq!(t.cpu(2).unwrap().utilization, 0);
}

#[test]
fn idle_counter_going_backwards_counts_as_fully_busy() {
    let mut t = four_cpus([true; 4]);
    t.refresh(1_000, &samples(&[0], 1_000)).unwrap();
    let load = t.refresh(2_000, &samples(&[0], 700)).unwrap();
    assert_eq!(load, Aggregate { total: 10_000, samples: 1 });
    assert_eq!(t.cpu(0).unwrap().utilization, 10_000);
    assert_eq!(t.cpu(0).unwrap().last_idle_total, 700);
}

#[test]
fn boot_cpu_is_never_taken_offline() {
    let mut t = four_cpus([true; 4]);
    assert_eq!(t.boot_cpu(), 0);
    assert_eq!(t.writes_for(&vec![0, 1]), vec![1]);
    assert_eq!(t.record_write(0, false, WriteOutcome::Written), TransitionStatus::SkippedBootCpu);
    assert!(t.cpu(0).unwrap().online);
    assert_eq!(t.online_state(0), Some(true));
}

#[test]
fn boot_cpu_is_online_even_if_reported_offline() {
    let t = four_cpus([false, true, true, true]);
    assert_eq!(t.online_state(0), Some(true));
}

#[test]
fn transition_moves_exactly_the_written_cpus() {
    let mut t = four_cpus([true; 4]);
    assert_eq!(t.record_write(3, false, WriteOutcome::Written), TransitionStatus::Applied);
    assert_eq!(t.record_write(2, false, WriteOutcome::Failed), TransitionStatus::WriteFailed);
    assert_eq!(t.online_ids(), vec![0, 1, 2]);
    assert_eq!(t.offline_ids(), vec![3]);
    assert_eq!(t.record_write(1, false, WriteOutcome::NoControl), TransitionStatus::NotControllable);
    assert_eq!(t.record_write(9, false, WriteOutcome::Written), TransitionStatus::UnknownCpu);
    assert_eq!(t.online_ids(), vec![0, 1, 2]);
    assert_eq!(t.record_write(3, true, WriteOutcome::Written), TransitionStatus::Applied);
    assert_eq!(t.offline_ids(), Vec::<usize>::new());
}

#[test]
fn discovery_of_nothing_fails() {
    assert_eq!(discover(Vec::new(), 0).err(), Some(DiscoveryError::NoCpus));
}

#[test]
fn discovery_orders_dedups_and_normalizes_siblings() {
    let recs = vec![
        record(2, Some(1), &[2], true),
        record(0, Some(0), &[0, 1, 7], true),
        record(1, Some(0), &[], false),
        record(2, None, &[], true),
    ];
    let t = discover(recs, 0).unwrap();
    assert_eq!(t.len(), 3);
    assert_eq!(t.boot_cpu(), 0);
    assert_eq!(t.boot_socket(), Some(0));
    assert_eq!(t.siblings_of(1), &[0, 1][..]);
    assert_eq!(t.siblings_of(0), &[0, 1][..]);
    assert_eq!(t.siblings_of(2), &[2][..]);
    assert_eq!(t.siblings_of(5), &[] as &[usize]);
    // The last record of CPU 2 stands.
    assert_eq!(t.cpu(2).unwrap().socket_id, None);
    assert!(t.cpu(5).is_none());
    assert_eq!(t.online_ids(), vec![0, 2]);
}

#[test]
fn socket_summary_counts_cpus_per_socket() {
    let recs = vec![
        record(0, Some(0), &[0], true),
        record(1, Some(1), &[1], false),
        record(2, Some(0), &[2], false),
        record(3, None, &[3], true),
        record(4, Some(1), &[4], true),
    ];
    let t = discover(recs, 0).unwrap();
    assert_eq!(
        t.socket_summary(),
        vec![
            SocketSummary { socket_id: Some(0), cpus: 2, online: 1 },
            SocketSummary { socket_id: Some(1), cpus: 2, online: 1 },
            SocketSummary { socket_id: None, cpus: 1, online: 1 },
        ]
    );
}

#[test]
fn online_all_then_rediscovery_reports_everything_online() {
    let t = four_cpus([true, false, true, false]);
    let targets = t.online_all_targets();
    assert_eq!(targets, vec![1, 2, 3]);
    // After writing "1" to each target, reading the attributes back.
    let written = AttributeRead::Contents(control_bytes(true));
    let reread: Vec<CpuRecord> = (0..4)
        .map(|id| {
            let read = if id == 0 { AttributeRead::Missing } else { written.clone() };
            let sib = if id < 2 { [0, 1] } else { [2, 3] };
            record(id, Some(0), &sib, parse_online(&read))
        })
        .collect();
    let again = discover(reread, 0).unwrap();
    assert_eq!(again.online_ids(), vec![0, 1, 2, 3]);
    assert_eq!(again.offline_ids(), Vec::<usize>::new());
}

#[test]
fn online_all_before_discovery_skips_lowest_id() {
    assert_eq!(online_all_targets_of(&vec![3, 1, 2, 0]), vec![3, 1, 2]);
    assert_eq!(online_all_targets_of(&vec![4, 6]), vec![6]);
    assert_eq!(online_all_targets_of(&Vec::new()), Vec::<usize>::new());
}
