use ease_proc::process_sampler::{ProcessInfo, ProcessSampler, ProcessTable};

fn process(pid: u32, parent: Option<u32>, name: &str, exe: Option<&str>) -> ProcessInfo {
    ProcessInfo {
        pid,
        parent,
        name: Some(name.to_string()),
        exe: exe.map(|e| e.to_string()),
        cpu_usage_bits: (pid as f32).to_bits(),
        memory: pid as u64 * 10,
    }
}

fn table(procs: Vec<ProcessInfo>) -> ProcessTable {
    ProcessTable::new(procs).unwrap()
}

/// 1 has the children 2 and 3, 2 has 4 and 5, 3 has 6; 9 stands alone.
fn family_table() -> ProcessTable {
    table(vec![
        process(6, Some(3), "f", None),
        process(2, Some(1), "b", None),
        process(9, None, "i", None),
        process(3, Some(1), "c", None),
        process(4, Some(2), "d", None),
        process(1, Some(100), "a", None),
        process(5, Some(2), "e", None),
    ])
}

fn loads(bits: &[u32]) -> Vec<f32> {
    bits.iter().map(|b| f32::from_bits(*b)).collect()
}

#[test]
fn process_numbers_are_different() {
    let twice = vec![process(1, None, "a", None), process(2, None, "b", None), process(1, None, "c", None)];
    assert!(ProcessTable::new(twice).is_none());
    assert!(ProcessTable::new(Vec::new()).is_some());
}

#[test]
fn tree_is_measured_level_by_level() {
    let sampler = ProcessSampler::new(1000, family_table());
    let stat = sampler.get_process_tree_usage(1);
    assert_eq!(stat.pid, 1);
    assert_eq!(loads(&stat.cpu_usage_bits), vec![1.0, 2.0, 3.0, 4.0, 5.0, 6.0]);
    assert_eq!(stat.memory, 210);
    let stat = sampler.get_process_tree_usage(2);
    assert_eq!(loads(&stat.cpu_usage_bits), vec![2.0, 4.0, 5.0]);
    assert_eq!(stat.memory, 110);
    let stat = sampler.get_process_tree_usage(9);
    assert_eq!(loads(&stat.cpu_usage_bits), vec![9.0]);
}

#[test]
fn missing_process_uses_nothing() {
    let sampler = ProcessSampler::new(1000, family_table());
    let stat = sampler.get_process_tree_usage(100);
    assert_eq!(stat.pid, 100);
    assert!(stat.cpu_usage_bits.is_empty());
    assert_eq!(stat.memory, 0);
}

#[test]
fn tree_that_cannot_be_measured_is_noticed() {
    let looped = table(vec![
        process(1, Some(3), "a", None),
        process(2, Some(1), "b", None),
        process(3, Some(2), "c", None),
        process(4, Some(3), "d", None),
    ]);
    assert!(looped.is_own_ancestor(1));
    assert!(looped.is_own_ancestor(3));
    assert!(!looped.is_own_ancestor(4));
    let sampler = ProcessSampler::new(1000, looped);
    assert!(sampler.try_process_tree_usage(1).is_none());
    assert_eq!(sampler.try_process_tree_usage(4).unwrap().memory, 40);
    let mut big = process(1, None, "a", None);
    big.memory = u64::MAX;
    let sampler = ProcessSampler::new(1000, table(vec![big, process(2, Some(1), "b", None)]));
    assert!(sampler.try_process_tree_usage(1).is_none());
    assert_eq!(sampler.try_process_tree_usage(2).unwrap().memory, 20);
}

#[test]
fn own_parent_is_an_own_ancestor() {
    let t = table(vec![process(0, Some(0), "idle", None), process(4, Some(0), "system", None)]);
    assert!(t.is_own_ancestor(0));
    assert!(!t.is_own_ancestor(4));
}

#[test]
fn family_is_the_tree_in_another_order() {
    let t = family_table();
    assert_eq!(t.family(1), vec![1, 2, 3, 6, 4, 5]);
    assert_eq!(t.family(2), vec![2, 4, 5]);
    assert_eq!(t.family(9), vec![9]);
}

#[test]
fn topmost_process_of_a_program_is_found() {
    let sampler = ProcessSampler::new(
        1000,
        table(vec![
            process(3, Some(2), "x", Some("/opt/x")),
            process(2, Some(1), "x", Some("/opt/x")),
            process(1, None, "sh", Some("/bin/sh")),
            process(8, Some(77), "x", Some("/opt/x")),
        ]),
    );
    assert_eq!(sampler.find_process_by_path("/opt/x"), Some(2));
    assert_eq!(sampler.find_process_by_path("/opt//x"), Some(2));
    assert_eq!(sampler.find_process_by_path("/bin/sh"), Some(1));
    assert_eq!(sampler.find_process_by_path("/opt/y"), None);
    assert_eq!(sampler.find_process_by_path("/opt/X"), None);
    assert_eq!(sampler.find_process_by_path("/opt/./x/"), Some(2));
    assert_eq!(sampler.find_process_by_path("/op/tx"), None);
    assert_eq!(sampler.find_process_by_path("opt/x"), None);
    assert_eq!(sampler.find_process_by_path(""), None);
}

#[test]
fn first_process_stands_in_for_a_topmost_one() {
    let sampler = ProcessSampler::new(
        1000,
        table(vec![
            process(1, Some(2), "x", Some("/opt/x")),
            process(2, Some(1), "x", Some("/opt/x")),
        ]),
    );
    assert_eq!(sampler.find_process_by_path("/opt/x"), Some(1));
}

#[test]
fn marks_decide_what_is_topmost() {
    let t = family_table();
    // The table lists 6, 2, 9, 3, 4, 1, 5.
    assert_eq!(t.topmost_marked(&vec![true, false, false, true, false, false, false]), Some(3));
    assert_eq!(t.topmost_marked(&vec![true, false, true, false, false, true, false]), Some(6));
    assert_eq!(t.topmost_marked(&vec![false; 7]), None);
}

#[test]
fn child_with_the_name_takes_over() {
    let sampler = ProcessSampler::new(
        1000,
        table(vec![
            process(5, Some(1), "helper", None),
            process(6, Some(1), "x", None),
            process(7, Some(1), "x", None),
            process(8, Some(2), "x", None),
        ]),
    );
    assert_eq!(sampler.check_for_handover(1, &"x".to_string()), Some(6));
    assert_eq!(sampler.check_for_handover(2, &"x".to_string()), Some(8));
    assert_eq!(sampler.check_for_handover(2, &"helper".to_string()), None);
    assert_eq!(sampler.check_for_handover(3, &"x".to_string()), None);
}

#[test]
fn sampler_has_one_worker_at_most() {
    let mut sampler = ProcessSampler::new(1000, family_table());
    assert!(sampler.spawn(7));
    assert!(!sampler.spawn(8));
    assert_eq!(sampler.stop(), Some(7));
    assert_eq!(sampler.stop(), None);
    assert!(sampler.spawn(9));
    assert_eq!(sampler.interval_ms, 1000);
}

#[test]
fn refreshed_table_is_looked_at() {
    let mut sampler = ProcessSampler::new(1000, family_table());
    assert!(sampler.check_alive(4));
    assert!(!sampler.check_alive(50));
    sampler.refresh_processes(table(vec![process(50, None, "z", None)]));
    assert!(!sampler.check_alive(4));
    assert!(sampler.check_alive(50));
}
