use scx_cohort::domain::TaskSnapshot;
use scx_cohort::intake::{cgroup_path, comm_len, group_tasks, EdgeMeter, TaskMeter, TaskRow};

fn row(pid: u32, runtime_sum: u64, runtime_home_sum: u64) -> TaskRow {
    TaskRow {
        pid,
        tgid: pid / 10,
        cohort_id: 7,
        runtime_sum,
        runtime_home_sum,
        comm: format!("task-{pid}"),
    }
}

fn task(pid: u32, tgid: u32, cohort_id: u64) -> TaskSnapshot {
    TaskSnapshot {
        pid,
        tgid,
        cohort_id,
        duty_ns: 0,
        duty_known: true,
        home_ns: 0,
        comm: String::new(),
    }
}

#[test]
fn runtimes_are_differences_of_sums() {
    let mut m = TaskMeter::new();
    let first = m.read(vec![row(11, 500, 300)]);
    assert_eq!(first.len(), 1);
    assert_eq!((first[0].duty_ns, first[0].home_ns, first[0].duty_known), (0, 0, false));
    assert_eq!((first[0].pid, first[0].tgid, first[0].cohort_id), (11, 1, 7));
    assert_eq!(first[0].comm, "task-11");

    let second = m.read(vec![row(22, 40, 4), row(11, 650, 310)]);
    assert_eq!((second[0].duty_ns, second[0].home_ns, second[0].duty_known), (0, 0, false));
    assert_eq!((second[1].duty_ns, second[1].home_ns, second[1].duty_known), (150, 10, true));

    // A sum that went backwards counts as nothing; a task that was away is
    // seen anew.
    let third = m.read(vec![row(22, 30, 9)]);
    assert_eq!((third[0].duty_ns, third[0].home_ns, third[0].duty_known), (0, 5, true));
    let fourth = m.read(vec![row(11, 700, 320)]);
    assert_eq!((fourth[0].duty_ns, fourth[0].duty_known), (0, false));
}

#[test]
fn wakes_are_differences_of_sums_by_direction() {
    let mut m = EdgeMeter::new();
    assert_eq!(m.read(&[(1, 2, 30), (2, 1, 5)]), vec![(1, 2, 30), (2, 1, 5)]);
    assert_eq!(
        m.read(&[(2, 1, 9), (1, 2, 10), (3, 1, 4)]),
        vec![(2, 1, 4), (1, 2, 0), (3, 1, 4)]
    );
    assert!(m.read(&[]).is_empty());
    assert_eq!(m.read(&[(1, 2, 12)]), vec![(1, 2, 12)]);
}

#[test]
fn tasks_are_grouped_by_cohort_and_process() {
    let tasks = [
        task(1, 50, 8),
        task(2, 20, 8),
        task(3, 20, 9),
        task(4, 20, 8),
        task(5, 50, 8),
        task(6, 50, 8),
    ];
    let groups = group_tasks(&tasks);
    assert_eq!(groups.sizes.len(), 2);
    assert_eq!((groups.sizes[&8], groups.sizes[&9]), (5, 1));
    assert_eq!(groups.members.len(), 2);
    assert_eq!(groups.members[&8], vec![(20, 2), (50, 3)]);
    assert_eq!(groups.members[&9], vec![(20, 1)]);
    assert!(group_tasks(&[]).members.is_empty());
}

#[test]
fn names_end_at_their_padding() {
    assert_eq!(comm_len(b"bash\0\0\0\0"), 4);
    assert_eq!(comm_len(b"full"), 4);
    assert_eq!(comm_len(b"\0x"), 0);
    assert_eq!(comm_len(b""), 0);
}

#[test]
fn cgroup_paths_are_found_in_their_line() {
    let path = |text: &str| cgroup_path(text.as_bytes()).map(|p| String::from_utf8(p).unwrap());
    assert_eq!(path("0::/user.slice/a.scope\n"), Some("user.slice/a.scope".to_string()));
    assert_eq!(
        path("12:cpu:/x\n10::/y\n0:://system.slice\n0::/z\n"),
        Some("system.slice".to_string())
    );
    assert_eq!(path("0::/"), Some(String::new()));
    assert_eq!(path("0::\n1:cpu:/x"), Some(String::new()));
    assert_eq!(path("1:name=systemd:/0::/x\n"), None);
    assert_eq!(path("0:"), None);
    assert_eq!(path(""), None);
}
