use ease_proc::commands::{CommandError, MonitorTargetDto};
use ease_proc::monitor::{
    ConsoleMsg, LocalProcessConfig, MonitorJob, MonitorTarget, MonitorTargetType,
    RemoteHostConfig,
};
use ease_proc::monitor_manager::{
    EnableStep, MonitorManager, Removal, RemovalEvent, Restart, StopAction, StopRun, TargetRow,
    TaskWait,
};
use ease_proc::process_sampler::{ProcessSampler, ProcessTable};

fn program(path: &str) -> MonitorTargetType {
    MonitorTargetType::LocalProcess(LocalProcessConfig {
        path: path.to_string(),
        auto_restart: false,
        capture_output: false,
    })
}

fn remote() -> MonitorTargetType {
    MonitorTargetType::RemoteHost(RemoteHostConfig {
        host: "h".to_string(),
        port: 22,
        username: "u".to_string(),
        password: "p".to_string(),
    })
}

fn target(id: usize, kind: MonitorTargetType, enabled: bool) -> MonitorTarget {
    MonitorTarget::new(id, kind, format!("t{}", id), enabled).unwrap()
}

fn manager(targets: Vec<MonitorTarget>) -> MonitorManager {
    let mut m = MonitorManager::new();
    for t in targets {
        m.add_monitor(t.id, t);
    }
    m
}

fn sampler() -> ProcessSampler {
    ProcessSampler::new(1000, ProcessTable::new(Vec::new()).unwrap())
}

/// Starts a target as the task with the given number.
fn enable(m: &mut MonitorManager, id: usize, task: u64) {
    m.enable_monitor(&mut sampler(), id, false, task, 0);
}

#[test]
fn kinds_of_targets_have_names() {
    assert_eq!(MonitorTargetType::LocalHost.to_string(), "LocalHost");
    assert_eq!(program("x").to_string(), "LocalProcess");
    assert_eq!(remote().to_string(), "RemoteHost");
}

#[test]
fn started_target_is_not_started_twice() {
    let mut t = target(1, program("x"), false);
    assert!(matches!(t.start_monitor(false, 7), Some(MonitorJob::LocalProcess(_))));
    assert!(t.monitor_enabled);
    assert!(t.start_monitor(false, 8).is_none());
    assert_eq!(t.task_handle, Some(7));
    // A task that has ended makes room for another.
    assert!(t.start_monitor(true, 9).is_some());
    assert_eq!(t.task_handle, Some(9));
    assert_eq!(t.stop_monitor(false), Some(9));
    assert!(!t.monitor_enabled);
    assert_eq!(t.stop_monitor(false), None);
}

#[test]
fn ended_task_is_forgotten() {
    let mut t = target(1, MonitorTargetType::LocalHost, false);
    assert!(matches!(t.start_monitor(false, 7), Some(MonitorJob::LocalHost)));
    let info = t.show_info(true);
    assert!(!info.monitor_enabled);
    assert!(info.performance_record.is_none());
    assert_eq!(info.target_type, "LocalHost");
    assert_eq!(t.task_handle, None);
    let mut t = target(1, remote(), true);
    assert!(t.show_info(true).monitor_enabled);
    assert!(matches!(t.start_monitor(false, 1), Some(MonitorJob::RemoteHost(_))));
}

#[test]
fn enabling_answers_whether_it_worked() {
    let mut m = manager(vec![target(1, program("x"), false)]);
    let mut s = sampler();
    let step = m.enable_monitor(&mut s, 2, false, 5, 70);
    assert!(matches!(step, EnableStep::Missing));
    assert!(!step.outcome(true));
    assert_eq!(s.worker, None);
    let step = m.enable_monitor(&mut s, 1, false, 5, 71);
    assert!(matches!(
        step,
        EnableStep::Running { job: Some(MonitorJob::LocalProcess(_)), start_worker: true }
    ));
    assert!(step.outcome(true));
    assert!(!step.outcome(false));
    assert_eq!(s.worker, Some(71));
    let step = m.enable_monitor(&mut s, 1, false, 6, 72);
    assert!(matches!(step, EnableStep::Running { job: None, start_worker: false }));
    assert_eq!(s.worker, Some(71));
    assert_eq!(m.target(1).unwrap().task_handle, Some(5));
}

fn look(task: u64, polls_left: u32) -> StopRun {
    StopRun::Look(TaskWait { task, polls_left })
}

#[test]
fn disabling_depends_on_the_kind() {
    let mut m = manager(vec![
        target(1, program("x"), false),
        target(2, remote(), false),
        target(3, program("y"), false),
    ]);
    let mut s = sampler();
    for id in 1..=3 {
        m.enable_monitor(&mut s, id, false, id as u64 * 10, 7);
    }
    let refused = StopRun::Finished(false);
    assert_eq!(m.disable_monitor(&mut s, 2, Err("db".to_string()), false), refused);
    assert_eq!(m.disable_monitor(&mut s, 9, Ok(()), false), refused);
    let run = m.disable_monitor(&mut s, 2, Ok(()), false);
    assert_eq!(run, StopRun::Abort { task: 20, answer: true });
    assert_eq!(run.next(false), StopRun::Finished(true));
    assert_eq!(m.disable_monitor(&mut s, 1, Ok(()), false), look(10, 200));
    assert_eq!(s.worker, Some(7));
    // No program is watched any more.
    let run = m.disable_monitor(&mut s, 3, Ok(()), false);
    assert_eq!(run, StopRun::StopSampler(7, StopAction::Wait(30)));
    assert_eq!(run.next(false), look(30, 200));
    assert_eq!(s.worker, None);
    assert_eq!(m.disable_monitor(&mut s, 3, Ok(()), false), StopRun::Finished(true));
}

#[test]
fn task_that_does_not_end_is_aborted() {
    let mut run = look(10, 200);
    for left in (0..200).rev() {
        run = run.next(false);
        assert_eq!(run, StopRun::Sleep(TaskWait { task: 10, polls_left: left }));
        run = run.next(false);
        assert_eq!(run, look(10, left));
    }
    assert_eq!(run.next(true), StopRun::Abort { task: 10, answer: false });
    run = run.next(false);
    assert_eq!(run, StopRun::Abort { task: 10, answer: false });
    run = run.next(false);
    assert_eq!(run, StopRun::Finished(false));
    assert_eq!(run.next(true), StopRun::Finished(false));
    assert_eq!(look(10, 3).next(true), StopRun::Finished(true));
}

fn answer(r: Removal) -> Result<String, String> {
    match r {
        Removal::Finished(Ok(text)) => Ok(text),
        Removal::Finished(Err(CommandError(text))) => Err(text),
        _ => panic!("not finished"),
    }
}

fn stored(reply: Result<(), &str>) -> RemovalEvent {
    RemovalEvent::Stored(reply.map_err(|e| e.to_string()))
}

#[test]
fn removal_goes_through_the_database() {
    let mut m = manager(vec![target(1, program("x"), false)]);
    let mut s = sampler();
    let step = m.begin_removal(&mut s, 1, Ok(()), false);
    assert!(matches!(step, Removal::Delete(1)));
    assert_eq!(answer(m.remove_monitor(step, stored(Err("locked")))), Err("locked".to_string()));
    assert!(m.target(1).is_some());
    let step = m.remove_monitor(Removal::Delete(1), stored(Ok(())));
    assert!(matches!(step, Removal::Commit(true)));
    assert!(m.target(1).is_none());
    assert_eq!(answer(m.remove_monitor(step, stored(Ok(())))), Ok("删除成功".to_string()));
    let step = m.begin_removal(&mut s, 1, Ok(()), false);
    assert!(matches!(step, Removal::Delete(1)));
    let step = m.remove_monitor(step, stored(Ok(())));
    assert!(matches!(step, Removal::Commit(false)));
    assert_eq!(answer(m.remove_monitor(step, stored(Ok(())))), Err("删除目标不存在".to_string()));
    let step = m.remove_monitor(Removal::Commit(true), stored(Err("full")));
    assert_eq!(answer(step), Err("full".to_string()));
}

#[test]
fn removal_stops_the_target_first() {
    let mut m = manager(vec![target(1, program("x"), false), target(2, program("y"), true)]);
    let mut s = sampler();
    m.enable_monitor(&mut s, 1, false, 10, 7);
    let step = m.begin_removal(&mut s, 1, Ok(()), false);
    assert!(matches!(&step, Removal::Stopping(1, run) if *run == look(10, 200)));
    assert!(!m.target(1).unwrap().monitor_enabled);
    assert!(m.target(1).unwrap().task_handle.is_none());
    // An answer that was not asked for changes nothing.
    let step = m.remove_monitor(step, stored(Ok(())));
    assert!(matches!(&step, Removal::Stopping(1, run) if *run == look(10, 200)));
    let step = m.remove_monitor(step, RemovalEvent::Stepped { ended: true });
    assert!(matches!(step, Removal::Delete(1)));
    assert!(matches!(m.remove_monitor(step, stored(Ok(()))), Removal::Commit(true)));
    assert!(m.target(2).is_some());
}

fn form(id: usize) -> MonitorTargetDto {
    MonitorTargetDto { id: Some(id), target_type: program("new"), alias: "新".to_string() }
}

#[test]
fn changed_configuration_restarts_a_running_target() {
    let mut m = manager(vec![target(1, program("x"), false)]);
    assert_eq!(m.update_monitor_config(form(2), Ok(())).unwrap_err().0, "修改的监控目标不存在");
    assert_eq!(m.update_monitor_config(form(1), Err("db".to_string())).unwrap_err().0, "db");
    assert_eq!(m.target(1).unwrap().alias, "t1");
    let update = m.update_monitor_config(form(1), Ok(())).unwrap();
    assert_eq!(update.message, "修改成功，正在自动重启监控");
    assert!(update.restart.is_none());
    assert_eq!(m.target(1).unwrap().alias, "新");
    enable(&mut m, 1, 3);
    let update = m.update_monitor_config(form(1), Ok(())).unwrap();
    assert!(matches!(update.restart, Some(Restart::Stop(1))));
}

#[test]
fn restart_stops_waits_and_starts() {
    let mut m = manager(vec![target(1, program("x"), false)]);
    enable(&mut m, 1, 3);
    let run = m.restart(Restart::Stop(1), false, 0);
    assert!(matches!(&run, Restart::Stopping(1, stop) if *stop == look(3, 200)));
    assert!(!m.target(1).unwrap().monitor_enabled);
    let run = m.restart(run, false, 0);
    assert!(matches!(&run, Restart::Stopping(1, StopRun::Sleep(_))));
    let run = m.restart(run, false, 0);
    let run = m.restart(run, true, 0);
    assert!(matches!(run, Restart::Start(1)));
    let run = m.restart(run, false, 4);
    assert!(matches!(run, Restart::Started(Some(MonitorJob::LocalProcess(_)))));
    assert_eq!(m.target(1).unwrap().task_handle, Some(4));
    assert!(matches!(m.restart(run, false, 5), Restart::Started(None)));
    // A task that does not end is aborted, and the target is started all the same.
    let run = m.restart(Restart::Stopping(1, look(3, 0)), false, 0);
    assert!(matches!(&run, Restart::Stopping(1, StopRun::Abort { task: 3, answer: false })));
    assert!(matches!(m.restart(run, false, 0), Restart::Start(1)));
    assert!(matches!(m.restart(Restart::Stop(8), false, 0), Restart::Start(8)));
    assert!(matches!(m.restart(Restart::Start(8), false, 0), Restart::Started(None)));
}

#[test]
fn active_targets_are_listed() {
    let m = manager(vec![
        target(1, program("x"), true),
        target(2, remote(), false),
        target(3, MonitorTargetType::LocalHost, true),
    ]);
    let mut ids = m.start_all_active_monitors();
    ids.sort();
    assert_eq!(ids, vec![1, 3]);
}

#[test]
fn overview_is_ordered_and_complete() {
    let mut m = manager((0..20).map(|i| target(i * 7 % 20, remote(), true)).collect());
    enable(&mut m, 4, 1);
    let infos = m.get_all_monitor_info(&vec![4, 5]);
    let ids: Vec<usize> = infos.iter().map(|i| i.id).collect();
    let expected: Vec<usize> = (0..20).rev().collect();
    assert_eq!(ids, expected);
    for info in &infos {
        assert_eq!(info.monitor_enabled, info.id != 4);
        assert_eq!(info.alias, format!("t{}", info.id));
    }
    assert!(m.target(4).unwrap().task_handle.is_none());
}

#[test]
fn stored_targets_are_read() {
    let row = |id: usize, alias: &str, enabled: bool| -> Result<TargetRow, String> {
        Ok(TargetRow {
            id,
            target_type: remote(),
            alias: alias.to_string(),
            monitor_enabled: enabled,
        })
    };
    let mut m = manager(vec![target(1, program("x"), true), target(2, program("y"), true)]);
    m.ini_monitor_targets_from_db(vec![
        row(2, "b", false),
        Err("bad".to_string()),
        row(3, "c", true),
        row(3, "d", true),
    ]);
    assert_eq!(m.target(1).unwrap().alias, "t1");
    assert_eq!(m.target(2).unwrap().alias, "b");
    assert!(!m.target(2).unwrap().monitor_enabled);
    assert_eq!(m.target(3).unwrap().alias, "d");
    assert!(m.target(4).is_none());
}

#[test]
fn signal_is_left_for_a_target() {
    let mut m = manager(vec![target(1, program("x"), true)]);
    assert!(m.change_control_signal(1, "stop".to_string()));
    assert!(!m.change_control_signal(2, "stop".to_string()));
    let mut t = m.take_target(1).unwrap();
    assert_eq!(t.take_signal(), "stop");
    assert_eq!(t.take_signal(), "");
}

#[test]
fn configuration_and_console_are_read() {
    let mut t = target(1, program("x"), true);
    t.push_console(ConsoleMsg { msg: "a".to_string(), time: "1".to_string() });
    t.push_console(ConsoleMsg { msg: "b".to_string(), time: "2".to_string() });
    let m = manager(vec![t]);
    let dto = m.get_monitor_config_by_id(1).unwrap();
    assert_eq!(dto.id, Some(1));
    assert_eq!(dto.alias, "t1");
    assert!(m.get_monitor_config_by_id(2).is_none());
    let lines: Vec<String> = m.get_target_console_output(1).into_iter().map(|c| c.msg).collect();
    assert_eq!(lines, vec!["a", "b"]);
    assert!(m.get_target_console_output(2).is_empty());
}
