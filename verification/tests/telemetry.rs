use sysmon::build_cpu_records;
use sysmon::build_disks;
use sysmon::build_networks;
use sysmon::build_performance_snapshot;
use sysmon::build_process_snapshot;
use sysmon::filter_processes;
use sysmon::mem_stats;
use sysmon::swap_stats;
use sysmon::sort_processes;
use sysmon::sort_processes_by;
use sysmon::CpuSample;
use sysmon::DiskSample;
use sysmon::Mailbox;
use sysmon::Mem;
use sysmon::MyProcess;
use sysmon::Network;
use sysmon::ProcessSample;
use sysmon::Sort;
use sysmon::SortField;
use sysmon::SortType;
use sysmon::Swap;
use sysmon::ViewState;

fn proc(pid: u32, name: &str, cpu: f32, mem: u64) -> MyProcess {
    MyProcess {
        pid,
        name: name.to_string(),
        memory: mem,
        cpu_usage: cpu.to_bits(),
        read_bytes: 0,
        written_bytes: 0,
    }
}

fn pids(v: &[MyProcess]) -> Vec<u32> {
    v.iter().map(|p| p.pid).collect()
}

fn names(v: &[MyProcess]) -> Vec<String> {
    v.iter().map(|p| p.name.clone()).collect()
}

#[test]
fn scenario_two_procs_pid_ascending() {
    let procs = vec![proc(10, "bash", 1.0, 5), proc(2, "zsh", 9.0, 2)];
    let kept = filter_processes(&procs, "");
    assert_eq!(kept.len(), 2);
    let sort = Sort { field: Some(SortField::Pid), sort_type: SortType::Asc };
    let sorted = sort_processes(kept, &sort);
    assert_eq!(pids(&sorted), vec![2, 10]);
}

#[test]
fn scenario_two_procs_name_descending() {
    let procs = vec![proc(10, "bash", 1.0, 5), proc(2, "zsh", 9.0, 2)];
    let kept = filter_processes(&procs, "");
    let sort = Sort { field: Some(SortField::Name), sort_type: SortType::Desc };
    let sorted = sort_processes(kept, &sort);
    assert_eq!(names(&sorted), vec!["zsh".to_string(), "bash".to_string()]);
}

#[test]
fn scenario_filter_matches_pid_digits() {
    let procs = vec![proc(10, "bash", 1.0, 5), proc(2, "zsh", 9.0, 2)];
    let kept = filter_processes(&procs, "1");
    assert_eq!(pids(&kept), vec![10]);
}

#[test]
fn scenario_click_cycle() {
    let s0 = Sort::new();
    assert_eq!(s0.field, None);
    assert_eq!(s0.sort_type, SortType::Unset);
    let s1 = s0.clicked(SortField::CpuUsage);
    assert_eq!(s1.field, Some(SortField::CpuUsage));
    assert_eq!(s1.sort_type, SortType::Desc);
    let s2 = s1.clicked(SortField::CpuUsage);
    assert_eq!(s2.sort_type, SortType::Asc);
    let s3 = s2.clicked(SortField::CpuUsage);
    assert_eq!(s3.sort_type, SortType::Unset);
    let s4 = s3.clicked(SortField::Pid);
    assert_eq!(s4.field, Some(SortField::Pid));
    assert_eq!(s4.sort_type, SortType::Desc);
}

#[test]
fn scenario_memory_stats_conversion() {
    // 16 binary GiB of bytes; the published numbers divide by 10^9 and
    // truncate, as the collector specifies, so the total lands on 17.
    let m = mem_stats(17_179_869_184, 8_589_934_592);
    assert_eq!(m.total, 17);
    assert_eq!(m.used, 8);
    assert_eq!(m.free, 8);
}

#[test]
fn memory_truncation_is_exact() {
    let m = mem_stats(2_999_999_999, 1_000_000_001);
    assert_eq!(m.total, 2);
    assert_eq!(m.used, 1);
    assert_eq!(m.free, 1);
    let s = swap_stats(999_999_999, 0);
    assert_eq!(s.total, 0);
    assert_eq!(s.used, 0);
    assert_eq!(s.free, 0);
}

#[test]
fn process_memory_is_truncated_mib() {
    let samples = vec![
        ProcessSample {
            pid: 7,
            name: "init".to_string(),
            memory_bytes: 5_500_000,
            cpu_usage: 0,
            read_bytes: 11,
            written_bytes: 22,
        },
        ProcessSample {
            pid: 8,
            name: "idle".to_string(),
            memory_bytes: 999_999,
            cpu_usage: 0,
            read_bytes: 0,
            written_bytes: 0,
        },
    ];
    let rows = build_process_snapshot(samples);
    assert_eq!(rows.len(), 2);
    assert_eq!(rows[0].memory, 5);
    assert_eq!(rows[0].pid, 7);
    assert_eq!(rows[0].read_bytes, 11);
    assert_eq!(rows[0].written_bytes, 22);
    assert_eq!(rows[1].memory, 0);
}

#[test]
fn filter_keeps_order_and_rejects_nonmatches() {
    let procs = vec![
        proc(31, "bash", 0.0, 1),
        proc(45, "cargo", 0.0, 1),
        proc(12, "zsh", 0.0, 1),
    ];
    let kept = filter_processes(&procs, "sh");
    assert_eq!(names(&kept), vec!["bash".to_string(), "zsh".to_string()]);
    let none = filter_processes(&procs, "zz");
    assert!(none.is_empty());
    let all = filter_processes(&procs, "");
    assert_eq!(pids(&all), vec![31, 45, 12]);
}

#[test]
fn filter_matches_inner_pid_digits() {
    let procs = vec![proc(105, "a", 0.0, 0), proc(51, "b", 0.0, 0), proc(7, "c", 0.0, 0)];
    let kept = filter_processes(&procs, "05");
    assert_eq!(pids(&kept), vec![105]);
    let kept5 = filter_processes(&procs, "5");
    assert_eq!(pids(&kept5), vec![105, 51]);
}

#[test]
fn sort_is_stable_on_equal_keys() {
    let procs = vec![
        proc(4, "d", 2.5, 9),
        proc(1, "a", 2.5, 9),
        proc(3, "c", 1.0, 9),
        proc(2, "b", 2.5, 9),
    ];
    let sorted = sort_processes_by(procs, SortField::CpuUsage, false);
    // the 2.5 rows keep their input order 4, 1, 2 behind the 1.0 row
    assert_eq!(pids(&sorted), vec![3, 4, 1, 2]);
    let procs2 = vec![
        proc(4, "d", 2.5, 9),
        proc(1, "a", 2.5, 9),
        proc(3, "c", 1.0, 9),
        proc(2, "b", 2.5, 9),
    ];
    let by_mem = sort_processes_by(procs2, SortField::Memory, false);
    assert_eq!(pids(&by_mem), vec![4, 1, 3, 2]);
}

#[test]
fn descending_reverses_ascending_on_distinct_keys() {
    let procs = vec![proc(9, "x", 0.5, 3), proc(4, "y", 8.0, 1), proc(7, "z", 2.0, 2)];
    let up = sort_processes_by(procs.clone(), SortField::Pid, false);
    let down = sort_processes_by(procs, SortField::Pid, true);
    let mut reversed = up;
    reversed.reverse();
    assert_eq!(pids(&reversed), pids(&down));
    assert_eq!(pids(&down), vec![9, 7, 4]);
}

fn disk(mount: &str, total: u64, avail: u64, structure: Option<&str>) -> DiskSample {
    DiskSample {
        mount_point: mount.to_string(),
        kind: "SSD".to_string(),
        structure: structure.map(|s| s.to_string()),
        total_space: total,
        available_space: avail,
        removable: false,
    }
}

#[test]
fn disks_are_sorted_by_mount_path() {
    let samples = vec![
        disk("/var", 10_000_000_000, 4_000_000_000, Some("ext4")),
        disk("/", 20_000_000_000, 5_000_000_000, Some("ext4")),
        disk("/home", 30_000_000_000, 30_000_000_000, Some("xfs")),
    ];
    let rows = build_disks(samples);
    let mounts: Vec<String> = rows.iter().map(|d| d.local.clone()).collect();
    assert_eq!(
        mounts,
        vec!["/".to_string(), "/home".to_string(), "/var".to_string()]
    );
    assert_eq!(rows[0].space, 20);
    assert_eq!(rows[0].used, 15_000_000_000);
    assert_eq!(rows[0].free, 5_000_000_000);
    assert_eq!(rows[1].structure, "xfs".to_string());
}

#[test]
fn undecodable_disk_is_skipped() {
    let samples = vec![
        disk("/var", 10_000_000_000, 4_000_000_000, Some("ext4")),
        disk("/broken", 10_000_000_000, 1_000_000_000, None),
    ];
    let rows = build_disks(samples);
    assert_eq!(rows.len(), 1);
    assert_eq!(rows[0].local, "/var".to_string());
}

#[test]
fn networks_are_sorted_by_name() {
    let net = |name: &str| Network {
        name: name.to_string(),
        transmitted: 1,
        received: 2,
        total_transmitted: 3,
        total_received: 4,
    };
    let rows = build_networks(vec![net("wlan0"), net("eth0"), net("lo")]);
    let names: Vec<String> = rows.iter().map(|n| n.name.clone()).collect();
    assert_eq!(
        names,
        vec!["eth0".to_string(), "lo".to_string(), "wlan0".to_string()]
    );
}

#[test]
fn cpu_records_carry_one_sample() {
    let rows = build_cpu_records(vec![
        CpuSample { name: "cpu0".to_string(), usage: 42 },
        CpuSample { name: "cpu1".to_string(), usage: 7 },
    ]);
    assert_eq!(rows.len(), 2);
    assert_eq!(rows[0].name, "cpu0".to_string());
    assert_eq!(rows[0].uses, vec![42]);
    assert_eq!(rows[1].uses, vec![7]);
}

#[test]
fn performance_snapshot_is_assembled_ordered() {
    let net = |name: &str| Network {
        name: name.to_string(),
        transmitted: 0,
        received: 0,
        total_transmitted: 0,
        total_received: 0,
    };
    let snap = build_performance_snapshot(
        vec![CpuSample { name: "cpu0".to_string(), usage: 3 }],
        4_000_000_000,
        1_000_000_000,
        2_000_000_000,
        0,
        vec![net("wlan0"), net("eth0")],
        vec![
            disk("/b", 1_000_000_000, 0, Some("ext4")),
            disk("/a", 1_000_000_000, 0, Some("ext4")),
        ],
    );
    assert_eq!(snap.mem.total, 4);
    assert_eq!(snap.mem.used, 1);
    assert_eq!(snap.mem.free, 3);
    assert_eq!(snap.swap.total, 2);
    assert_eq!(snap.swap.free, 2);
    assert_eq!(snap.networks[0].name, "eth0".to_string());
    assert_eq!(snap.networks[1].name, "wlan0".to_string());
    assert_eq!(snap.disks[0].local, "/a".to_string());
    assert_eq!(snap.disks[1].local, "/b".to_string());
    assert_eq!(snap.cpus[0].uses, vec![3]);
}

#[test]
fn mailbox_overwrites_and_empties() {
    let mut mb: Mailbox<u32> = Mailbox::empty();
    assert!(!mb.is_ready());
    assert_eq!(mb.take(), None);
    mb.send(1);
    mb.send(2);
    assert!(mb.is_ready());
    assert_eq!(mb.take(), Some(2));
    assert_eq!(mb.take(), None);
    assert!(!mb.is_ready());
}

#[test]
fn view_state_combines_filter_and_sort() {
    let mut vs = ViewState::new();
    vs.publish_processes(vec![proc(10, "bash", 1.0, 5), proc(2, "zsh", 9.0, 2)]);
    let initial = vs.current_view();
    assert_eq!(pids(&initial), vec![10, 2]);
    vs.toggle_sort(SortField::Pid);
    let descending = vs.current_view();
    assert_eq!(pids(&descending), vec![10, 2]);
    vs.toggle_sort(SortField::Pid);
    let ascending = vs.current_view();
    assert_eq!(pids(&ascending), vec![2, 10]);
    vs.apply_filter("ba".to_string());
    let filtered = vs.current_view();
    assert_eq!(names(&filtered), vec!["bash".to_string()]);
}

#[test]
fn indicator_names_the_active_direction() {
    let s = Sort { field: Some(SortField::Name), sort_type: SortType::Asc };
    assert_eq!(s.indicator(SortField::Name), "arrow_upward");
    assert_eq!(s.indicator(SortField::Pid), "");
    let d = Sort { field: Some(SortField::Name), sort_type: SortType::Desc };
    assert_eq!(d.indicator(SortField::Name), "arrow_downward");
    let u = Sort { field: Some(SortField::Name), sort_type: SortType::Unset };
    assert_eq!(u.indicator(SortField::Name), "");
}

#[test]
fn process_record_copies_fieldwise() {
    let p = proc(19, "tmux", 3.5, 77);
    let q = MyProcess::new(&p);
    assert_eq!(q.pid, 19);
    assert_eq!(q.name, "tmux".to_string());
    assert_eq!(q.memory, 77);
    assert_eq!(q.cpu_usage, (3.5f32).to_bits());
}

#[test]
fn default_stats_are_zero() {
    let m = Mem::default();
    assert_eq!((m.total, m.used, m.free), (0, 0, 0));
    let s = Swap::default();
    assert_eq!((s.total, s.used, s.free), (0, 0, 0));
    let p = sysmon::Performance::default();
    assert!(p.cpus.is_empty());
    assert!(p.networks.is_empty());
    assert!(p.disks.is_empty());
}

#[test]
fn name_sort_is_lexicographic() {
    let procs = vec![
        proc(1, "gcc", 0.0, 0),
        proc(2, "a", 0.0, 0),
        proc(3, "ab", 0.0, 0),
        proc(4, "b", 0.0, 0),
    ];
    let sorted = sort_processes_by(procs, SortField::Name, false);
    assert_eq!(
        names(&sorted),
        vec!["a".to_string(), "ab".to_string(), "b".to_string(), "gcc".to_string()]
    );
}

#[test]
fn compare_orders_rows_on_each_field() {
    let a = proc(1, "a", 1.0, 5);
    let b = proc(2, "b", 1.0, 9);
    assert_eq!(a.compare(&b, SortField::Name), std::cmp::Ordering::Less);
    assert_eq!(a.compare(&b, SortField::Pid), std::cmp::Ordering::Less);
    assert_eq!(b.compare(&a, SortField::Memory), std::cmp::Ordering::Greater);
    assert_eq!(a.compare(&b, SortField::CpuUsage), std::cmp::Ordering::Equal);
}
