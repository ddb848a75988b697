use ease_proc::local_process_monitor::{
    kill_process, launch_plan, start_process, KillStep, ProgramAction, ProgramEvent,
    ProgramMonitor, ProgramPhase,
};
use ease_proc::monitor::{
    LocalProcessConfig, MonitorRecord, MonitorTarget, MonitorTargetType, StatusSignal,
};
use ease_proc::paths::{normalize_path, paths_are_equal};
use ease_proc::process_sampler::{ProcessInfo, ProcessSampler, ProcessTable};
use std::path::Path;

fn process(pid: u32, parent: Option<u32>, name: &str) -> ProcessInfo {
    ProcessInfo {
        pid,
        parent,
        name: Some(name.to_string()),
        exe: None,
        cpu_usage_bits: 0,
        memory: 0,
    }
}

fn table(procs: Vec<ProcessInfo>) -> ProcessTable {
    ProcessTable::new(procs).unwrap()
}

fn sampler(pids: &[u32]) -> ProcessSampler {
    ProcessSampler::new(1000, table(pids.iter().map(|p| process(*p, None, "app")).collect()))
}

fn config(auto_restart: bool) -> LocalProcessConfig {
    LocalProcessConfig { path: "/opt/app".to_string(), auto_restart, capture_output: false }
}

fn begin(auto_restart: bool) -> (ProgramMonitor, MonitorTarget) {
    let cfg = config(auto_restart);
    let mut target = MonitorTarget::new(
        4,
        MonitorTargetType::LocalProcess(cfg.clone()),
        "我的\"程序\"".to_string(),
        true,
    )
    .unwrap();
    let monitor = ProgramMonitor::begin(
        &mut target,
        4,
        &cfg,
        &"我的\"程序\"".to_string(),
        false,
    );
    (monitor, target)
}

fn checked() -> ProgramEvent {
    ProgramEvent::PathChecked { exists: true, directory: false }
}

fn told(statuses: &[StatusSignal]) -> Vec<(String, String)> {
    statuses
        .iter()
        .map(|s| {
            assert_eq!(s.mt_id, 4);
            assert_eq!(s.target_type, "LocalProcess");
            (s.signal.clone(), s.message.clone())
        })
        .collect()
}

fn pair(a: &str, b: &str) -> (String, String) {
    (a.to_string(), b.to_string())
}

fn latest(target: &MonitorTarget) -> (u64, u64, u32, bool) {
    match &target.performance_records[0] {
        MonitorRecord::LocalProcess(r) => {
            assert_eq!(r.mt_id, 4);
            (r.cpu_usage_bits, r.memory_usage, r.pid, r.running)
        }
        _ => panic!("wrong kind of record"),
    }
}

#[test]
fn unusable_path_ends_the_watch() {
    for (exists, directory) in [(false, false), (true, true)] {
        let (mut m, mut t) = begin(true);
        assert_eq!(latest(&t), (0, 0, 0, false));
        let event = ProgramEvent::PathChecked { exists, directory };
        let step = m.step(&mut t, &sampler(&[]), event);
        assert_eq!(told(&step.statuses), vec![pair("error", "程序路径不存在: \"/opt/app\"")]);
        assert_eq!(step.action, ProgramAction::End);
        assert_eq!(m.phase, ProgramPhase::Ended);
    }
}

#[test]
fn path_is_told_in_quotes() {
    for path in ["C:\\程序\\a\"b.exe", "a\tb", ""] {
        let (mut m, mut t) = begin(true);
        m.path = path.to_string();
        let event = ProgramEvent::PathChecked { exists: false, directory: false };
        let step = m.step(&mut t, &sampler(&[]), event);
        let message = format!("程序路径不存在: {:?}", Path::new(path));
        assert_eq!(told(&step.statuses), vec![pair("error", &message)]);
    }
}

#[test]
fn running_program_is_found_and_measured() {
    let (mut m, mut t) = begin(true);
    let s = sampler(&[30]);
    let step = m.step(&mut t, &s, checked());
    assert_eq!(told(&step.statuses), vec![pair("enable", "监控任务启动成功:")]);
    assert_eq!(step.action, ProgramAction::Search);
    let step = m.step(&mut t, &s, ProgramEvent::Found(Some(30)));
    assert_eq!(step.action, ProgramAction::Pause);
    let step = m.step(&mut t, &s, ProgramEvent::Resumed);
    assert_eq!(step.action, ProgramAction::Measure(30));
    let bits = 1.5f64.to_bits();
    let step = m.step(&mut t, &s, ProgramEvent::Measured { cpu_usage_bits: bits, memory: 77 });
    assert_eq!(step.action, ProgramAction::Pause);
    assert!(step.statuses.is_empty());
    assert_eq!(latest(&t), (bits, 77, 30, true));
    assert_eq!(t.performance_records.len(), 1);
}

#[test]
fn lost_program_is_restarted_by_itself() {
    let (mut m, mut t) = begin(true);
    let s = sampler(&[]);
    assert_eq!(m.step(&mut t, &s, checked()).action, ProgramAction::Search);
    assert_eq!(m.step(&mut t, &s, ProgramEvent::Found(None)).action, ProgramAction::Pause);
    assert_eq!(m.phase, ProgramPhase::Resting);
    assert_eq!(m.step(&mut t, &s, ProgramEvent::Resumed).action, ProgramAction::Start);
    let step = m.step(&mut t, &s, ProgramEvent::Started(Ok(55)));
    assert_eq!(step.action, ProgramAction::Pause);
    assert_eq!(m.pid_running, Some(55));
    // The process is gone when the next round comes.
    let step = m.step(&mut t, &s, ProgramEvent::Resumed);
    assert_eq!(told(&step.statuses), vec![pair("refresh", "")]);
    assert_eq!(step.action, ProgramAction::Pause);
    assert_eq!(m.pid_running, None);
    assert_eq!(latest(&t), (0, 0, 0, false));
}

#[test]
fn failed_restart_is_tried_again() {
    let (mut m, mut t) = begin(true);
    let s = sampler(&[]);
    m.step(&mut t, &s, checked());
    m.step(&mut t, &s, ProgramEvent::Found(None));
    m.step(&mut t, &s, ProgramEvent::Resumed);
    let step = m.step(&mut t, &s, ProgramEvent::Started(Err("no".to_string())));
    assert_eq!(step.action, ProgramAction::Pause);
    assert!(step.statuses.is_empty());
    assert_eq!(m.step(&mut t, &s, ProgramEvent::Resumed).action, ProgramAction::Search);
}

#[test]
fn program_that_may_not_restart_is_left_alone() {
    let (mut m, mut t) = begin(false);
    let s = sampler(&[]);
    m.step(&mut t, &s, checked());
    assert_eq!(m.step(&mut t, &s, ProgramEvent::Found(None)).action, ProgramAction::Pause);
    assert_eq!(m.phase, ProgramPhase::Turning);
}

#[test]
fn stopped_program_stays_stopped_until_it_is_started() {
    let (mut m, mut t) = begin(true);
    let s = sampler(&[30]);
    m.step(&mut t, &s, checked());
    m.step(&mut t, &s, ProgramEvent::Found(Some(30)));
    t.control_signal = "stop".to_string();
    let step = m.step(&mut t, &s, ProgramEvent::Resumed);
    assert_eq!(step.action, ProgramAction::Kill(30));
    assert!(step.statuses.is_empty());
    assert_eq!(t.control_signal, "");
    let gone = sampler(&[]);
    let step = m.step(&mut t, &gone, ProgramEvent::Killed);
    let stopped = format!("{:?} 已停止运行", "我的\"程序\"");
    assert_eq!(told(&step.statuses), vec![(String::from("stop"), stopped)]);
    assert_eq!(step.action, ProgramAction::Search);
    assert_eq!(latest(&t), (0, 0, 0, false));
    // It would be restarted, had the user not stopped it.
    assert_eq!(m.step(&mut t, &gone, ProgramEvent::Found(None)).action, ProgramAction::Pause);
    assert_eq!(m.phase, ProgramPhase::Turning);
    t.control_signal = "start".to_string();
    assert_eq!(m.step(&mut t, &gone, ProgramEvent::Resumed).action, ProgramAction::Start);
    let step = m.step(&mut t, &gone, ProgramEvent::Started(Ok(31)));
    assert_eq!(step.action, ProgramAction::Refresh);
    assert_eq!(latest(&t), (0, 0, 0, true));
    assert_eq!(t.performance_records.len(), 2);
    let step = m.step(&mut t, &sampler(&[31]), ProgramEvent::Refreshed);
    let started = format!("{:?} 已启动", "我的\"程序\"");
    assert_eq!(told(&step.statuses), vec![(String::from("start"), started)]);
    assert_eq!(step.action, ProgramAction::Measure(31));
    assert!(!m.temp_stop);
}

#[test]
fn stop_of_a_program_that_does_not_run_is_confirmed() {
    let (mut m, mut t) = begin(true);
    t.control_signal = "stop".to_string();
    let step = m.step(&mut t, &sampler(&[]), checked());
    assert_eq!(
        told(&step.statuses),
        vec![
            pair("enable", "监控任务启动成功:"),
            (String::from("stop"), format!("{:?} 已停止运行", "我的\"程序\"")),
        ]
    );
    assert_eq!(step.action, ProgramAction::Search);
    assert!(m.temp_stop);
}

#[test]
fn failed_start_ends_the_watch() {
    let (mut m, mut t) = begin(false);
    t.control_signal = "start".to_string();
    let s = sampler(&[]);
    assert_eq!(m.step(&mut t, &s, checked()).action, ProgramAction::Start);
    let step = m.step(&mut t, &s, ProgramEvent::Started(Err("denied".to_string())));
    assert_eq!(told(&step.statuses), vec![pair("error", "应用启动失败: denied")]);
    assert_eq!(step.action, ProgramAction::End);
}

#[test]
fn start_of_a_running_program_is_confirmed() {
    let (mut m, mut t) = begin(false);
    let s = sampler(&[30]);
    m.step(&mut t, &s, checked());
    m.step(&mut t, &s, ProgramEvent::Found(Some(30)));
    t.control_signal = "start".to_string();
    let step = m.step(&mut t, &s, ProgramEvent::Resumed);
    assert_eq!(step.action, ProgramAction::Measure(30));
    assert_eq!(step.statuses.len(), 1);
}

#[test]
fn unknown_signal_is_dropped() {
    let (mut m, mut t) = begin(false);
    t.control_signal = "jump".to_string();
    let step = m.step(&mut t, &sampler(&[]), checked());
    assert_eq!(step.action, ProgramAction::Search);
    assert_eq!(t.control_signal, "");
}

#[test]
fn child_takes_over_at_once() {
    let (mut m, mut t) = begin(false);
    m.step(&mut t, &sampler(&[30]), checked());
    m.step(&mut t, &sampler(&[30]), ProgramEvent::Found(Some(30)));
    let s = ProcessSampler::new(1000, table(vec![process(40, Some(30), "app")]));
    let step = m.step(&mut t, &s, ProgramEvent::Resumed);
    assert_eq!(step.action, ProgramAction::Again);
    assert_eq!(m.pid_running, Some(40));
    assert_eq!(m.step(&mut t, &s, ProgramEvent::Resumed).action, ProgramAction::Measure(40));
}

#[test]
fn disabled_watch_closes_the_program_down() {
    let (mut m, mut t) = begin(true);
    let s = sampler(&[30]);
    m.step(&mut t, &s, checked());
    m.step(&mut t, &s, ProgramEvent::Found(Some(30)));
    t.monitor_enabled = false;
    t.control_signal = "start".to_string();
    assert_eq!(m.step(&mut t, &s, ProgramEvent::Resumed).action, ProgramAction::Kill(30));
    assert_eq!(t.control_signal, "start");
    assert_eq!(m.step(&mut t, &s, ProgramEvent::Killed).action, ProgramAction::End);
    let (mut m, mut t) = begin(true);
    t.monitor_enabled = false;
    assert_eq!(m.step(&mut t, &s, checked()).action, ProgramAction::End);
}

#[test]
fn only_the_awaited_answer_is_accepted() {
    let (m, _) = begin(true);
    assert!(m.accepts(&checked()));
    assert!(!m.accepts(&ProgramEvent::Resumed));
    assert!(!m.accepts(&ProgramEvent::Killed));
}

#[test]
fn captured_program_has_no_window() {
    let plan = start_process("/opt/app/x", true);
    assert!(plan.piped);
    assert!(plan.in_job);
    assert_eq!(plan.creation_flags, 0x0800_0000);
    let plan = start_process("/opt/app/x", false);
    assert!(!plan.piped);
    assert!(!plan.in_job);
    assert_eq!(plan.creation_flags, 0x210);
}

#[test]
fn program_runs_in_the_directory_that_holds_it() {
    for path in paths() {
        let plan = start_process(path, false);
        assert_eq!(plan.program, path);
        let expected = Path::new(path).parent().unwrap_or(Path::new("."));
        assert_eq!(Path::new(&plan.directory), expected, "{:?}", path);
    }
    assert_eq!(start_process("/opt/app/x", false).directory, "/opt/app");
    assert_eq!(start_process("x", false).directory, "");
    assert_eq!(start_process("/", false).directory, ".");
    assert_eq!(start_process("/a", false).directory, "/");
    assert_eq!(start_process("./a", false).directory, ".");
    assert_eq!(start_process("/opt//app/./x", false).directory, "/opt//app");
    let plan = launch_plan("C:\\app\\x.exe", Some("C:\\app".to_string()), true);
    assert_eq!(plan.program, "C:\\app\\x.exe");
    assert_eq!(plan.directory, "C:\\app");
    assert_eq!(launch_plan("x", None, true).directory, ".");
}

#[test]
fn watched_program_has_the_name_of_its_file() {
    let start = |path: &str, windows: bool| -> (String, String) {
        let cfg = LocalProcessConfig {
            path: path.to_string(),
            auto_restart: false,
            capture_output: true,
        };
        let kind = MonitorTargetType::LocalProcess(cfg.clone());
        let mut t = MonitorTarget::new(4, kind, "a".to_string(), true).unwrap();
        let m = ProgramMonitor::begin(&mut t, 4, &cfg, &"a".to_string(), windows);
        assert!(m.capture_output);
        assert_eq!(m.shown_alias, "\"a\"");
        (m.path, m.program_name)
    };
    let pair = |a: &str, b: &str| -> (String, String) { (a.to_string(), b.to_string()) };
    assert_eq!(start("/opt/app/x", false), pair("/opt/app/x", "x"));
    assert_eq!(start("x", false), pair("x", "x"));
    assert_eq!(start("/opt/a:b", false), pair("/opt/a:b", "a:b"));
    assert_eq!(start("/opt/x/.", false), pair("/opt/x/.", "x"));
    assert_eq!(start("/opt/..", false), pair("/opt/..", ""));
    assert_eq!(start("", false), pair("", ""));
    assert_eq!(start("C:/app/x.exe", true).0, "C:\\app\\x.exe");
}

#[test]
fn search_and_measure_are_answered_from_the_table() {
    let exe = |pid: u32, parent: Option<u32>, exe: &str, memory: u64| -> ProcessInfo {
        ProcessInfo {
            pid,
            parent,
            name: None,
            exe: Some(exe.to_string()),
            cpu_usage_bits: 2.0f32.to_bits(),
            memory,
        }
    };
    let cfg = LocalProcessConfig {
        path: "/opt/x".to_string(),
        auto_restart: false,
        capture_output: false,
    };
    let kind = MonitorTargetType::LocalProcess(cfg.clone());
    let mut t = MonitorTarget::new(4, kind, "a".to_string(), true).unwrap();
    let mut m = ProgramMonitor::begin(&mut t, 4, &cfg, &"a".to_string(), false);
    let s = ProcessSampler::new(
        1000,
        table(vec![
            exe(1, None, "/bin/sh", 1),
            exe(2, Some(1), "/opt/x", 20),
            exe(3, Some(2), "/opt/y", 300),
        ]),
    );
    assert_eq!(m.step(&mut t, &s, checked()).action, ProgramAction::Search);
    let found = m.search(&s);
    assert!(matches!(found, ProgramEvent::Found(Some(2))));
    m.step(&mut t, &s, found);
    assert_eq!(m.step(&mut t, &s, ProgramEvent::Resumed).action, ProgramAction::Measure(2));
    let stat = m.usage(&s).unwrap();
    assert_eq!(stat.cpu_usage_bits, vec![2.0f32.to_bits(); 2]);
    m.step(&mut t, &s, ProgramMonitor::measured(&stat, 4.0f64.to_bits()));
    assert_eq!(latest(&t), (4.0f64.to_bits(), 320, 2, true));
    let other = sampler(&[7]);
    assert!(matches!(m.search(&other), ProgramEvent::Found(None)));
}

#[test]
fn closing_down_waits_before_it_uses_force() {
    let t = table(vec![
        process(1, None, "a"),
        process(2, Some(1), "b"),
        process(3, Some(2), "c"),
        process(4, None, "d"),
    ]);
    assert!(kill_process(9, &t).is_none());
    let plan = kill_process(1, &t).unwrap();
    assert_eq!(plan.pids, vec![1, 2, 3]);
    assert!(matches!(plan.step(0, &t), KillStep::Wait));
    assert!(matches!(plan.step(2999, &t), KillStep::Wait));
    let rest = table(vec![process(3, Some(2), "c"), process(4, None, "d"), process(1, None, "a")]);
    match plan.step(3000, &rest) {
        KillStep::Force(pids) => assert_eq!(pids, vec![1, 3]),
        _ => panic!("force is due"),
    }
    let gone = table(vec![process(4, None, "d")]);
    assert!(matches!(plan.step(300, &gone), KillStep::Done));
}

fn paths() -> Vec<&'static str> {
    vec![
        "", ".", "..", "/", "//", "./", "/.", "a", "a/", "./a", "a/.", "a/./b", "a/b", "a//b", "/a",
        "/a/b/", "/a/b", "../a", "a/../b", ".//a", "./.", "./././a", "/./a", "中/文", "中//文/", "A/b",
        ".a", "..a", "a/.b",
    ]
}

#[test]
fn path_equality_agrees_with_std() {
    for a in paths() {
        for b in paths() {
            assert_eq!(paths_are_equal(a, b, false), Path::new(a) == Path::new(b), "{:?} {:?}", a, b);
        }
    }
}

#[test]
fn windows_paths_ignore_case_and_separator() {
    assert!(paths_are_equal("C:\\Dir\\App.EXE", "c:/dir/app.exe", true));
    assert!(!paths_are_equal("C:\\Dir\\App", "C:\\Dir\\App2", true));
    assert!(!paths_are_equal("C:\\Ä", "c:\\ä", true));
    assert!(!paths_are_equal("a//b", "a/b", true));
    for a in paths() {
        for b in paths() {
            let expected = a.len() == b.len()
                && a.bytes().zip(b.bytes()).all(|(x, y)| {
                    let x = if x == b'/' { b'\\' } else { x.to_ascii_lowercase() };
                    let y = if y == b'/' { b'\\' } else { y.to_ascii_lowercase() };
                    x == y
                });
            assert_eq!(paths_are_equal(a, b, true), expected, "{:?} {:?}", a, b);
        }
    }
}

#[test]
fn paths_are_written_as_the_platform_does() {
    assert_eq!(normalize_path("C:/a/b", true), "C:\\a\\b");
    assert_eq!(normalize_path("C:/a\\b", false), "C:/a\\b");
    for p in paths() {
        assert!(paths_are_equal(p, &normalize_path(p, true), true));
        assert!(paths_are_equal(p, &normalize_path(p, false), false));
    }
}

/// All texts of up to `len` of the characters that matter in a path.
fn texts(len: usize) -> Vec<String> {
    let mut all = vec![String::new()];
    let mut last = all.clone();
    for _ in 0..len {
        let mut next = Vec::new();
        for text in &last {
            for c in ['/', '.', 'a', 'B', '\\', ':'] {
                next.push(format!("{}{}", text, c));
            }
        }
        all.extend(next.iter().cloned());
        last = next;
    }
    all
}

/// Whether a path starts at the root, and the names that it goes through, where
/// the slash alone separates them.
fn parts(path: &str) -> (bool, Vec<&str>) {
    let names = path
        .split('/')
        .enumerate()
        .filter(|(i, piece)| !piece.is_empty() && (*piece != "." || *i == 0))
        .map(|(_, piece)| piece)
        .collect();
    (path.starts_with('/'), names)
}

#[test]
fn path_is_taken_apart_into_directory_and_name() {
    if Path::new("a\\b").components().count() == 2 {
        return;
    }
    for path in texts(5) {
        let (rooted, mut names) = parts(&path);
        let last = names.pop();
        let shortest = (0..=path.len()).map(|k| &path[..k]).find(|p| {
            last.is_some() && parts(p) == (rooted, names.clone())
        });
        let directory = start_process(&path, false).directory;
        assert_eq!(directory, shortest.unwrap_or("."), "{:?}", path);
        let cfg = LocalProcessConfig {
            path: path.clone(),
            auto_restart: false,
            capture_output: false,
        };
        let kind = MonitorTargetType::LocalProcess(cfg.clone());
        let mut t = MonitorTarget::new(4, kind, String::new(), true).unwrap();
        let m = ProgramMonitor::begin(&mut t, 4, &cfg, &String::new(), false);
        let expected = last.filter(|name| *name != "." && *name != "..").unwrap_or("");
        assert_eq!(m.program_name, expected, "{:?}", path);
    }
}

#[test]
fn program_is_found_by_the_parts_of_its_path() {
    if Path::new("a\\b").components().count() == 2 {
        return;
    }
    let all = texts(3);
    for exe in &all {
        let mut p = process(1, None, "a");
        p.exe = Some(exe.clone());
        let s = ProcessSampler::new(1000, table(vec![p]));
        for path in &all {
            let found = s.find_process_by_path(path).is_some();
            assert_eq!(found, parts(exe) == parts(path), "{:?} {:?}", exe, path);
            assert_eq!(found, paths_are_equal(exe, path, false), "{:?} {:?}", exe, path);
        }
    }
}
