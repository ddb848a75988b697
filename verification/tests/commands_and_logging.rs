use ease_proc::commands::{
    add_monitor_target, are_log_times_sane, begin_reset, get_app_logs, get_monitor_full_config,
    get_system_info, log_query, open_app_folder, refresh_monitor_targets, reset_database,
    try_log_time, LogRow, MonitorTargetDto,
};
use ease_proc::logging::{MessageVisitor, SqliteLayer};
use ease_proc::monitor::{
    LocalProcessConfig, MonitorTarget, MonitorTargetType, RemoteHostConfig,
};
use ease_proc::monitor_manager::MonitorManager;

fn program(path: &str) -> MonitorTargetType {
    MonitorTargetType::LocalProcess(LocalProcessConfig {
        path: path.to_string(),
        auto_restart: true,
        capture_output: true,
    })
}

fn form(target_type: MonitorTargetType) -> MonitorTargetDto {
    MonitorTargetDto { id: None, target_type, alias: "别名".to_string() }
}

#[test]
fn unknown_parts_of_the_system_are_named_so() {
    let info = get_system_info(None, None, 1700000000, 8, None, 34_359_738_368);
    assert_eq!(info.hostname, "Unknown");
    assert_eq!(info.os_name, "Unknown");
    assert_eq!(info.start_time, "1700000000");
    assert_eq!(info.cpu_core_count, 8);
    assert_eq!(info.physical_core, 0);
    assert_eq!(info.total_memory, "32.0");
    let info = get_system_info(Some("pc".to_string()), Some("Pro".to_string()), 0, 1, Some(4), 0);
    assert_eq!(info.hostname, "pc");
    assert_eq!(info.os_name, "Pro");
    assert_eq!(info.physical_core, 4);
    assert_eq!(info.total_memory, "0.0");
}

#[test]
fn local_machine_is_left_out() {
    let mut manager = MonitorManager::new();
    let local = MonitorTarget::new(0, MonitorTargetType::LocalHost, "本机".to_string(), true).unwrap();
    manager.add_monitor(0, local);
    add_monitor_target(&mut manager, 3, form(program("a")));
    add_monitor_target(&mut manager, 5, form(program("b")));
    let all = manager.get_all_monitor_info(&Vec::new());
    let ids: Vec<usize> = all.iter().map(|i| i.id).collect();
    assert_eq!(ids, vec![5, 3, 0]);
    let shown = refresh_monitor_targets(&all);
    let ids: Vec<usize> = shown.iter().map(|i| i.id).collect();
    assert_eq!(ids, vec![5, 3]);
    assert_eq!(shown[0].target_type, "LocalProcess");
}

#[test]
fn added_target_is_switched_off() {
    let mut manager = MonitorManager::new();
    add_monitor_target(&mut manager, 3, form(program("a")));
    let target = manager.target(3).unwrap();
    assert_eq!(target.id, 3);
    assert_eq!(target.alias, "别名");
    assert!(!target.monitor_enabled);
    assert!(target.task_handle.is_none());
}

#[test]
fn missing_target_is_named() {
    let manager = MonitorManager::new();
    assert_eq!(get_monitor_full_config(&manager, 12).unwrap_err().0, "监控目标 12 不存在");
    assert_eq!(open_app_folder(&manager, 7).unwrap_err().0, "监控目标 7 不存在");
}

#[test]
fn only_a_program_has_a_file_to_point_out() {
    let mut manager = MonitorManager::new();
    add_monitor_target(&mut manager, 1, form(program("C:\\x.exe")));
    let remote = RemoteHostConfig {
        host: "h".to_string(),
        port: 22,
        username: "u".to_string(),
        password: "p".to_string(),
    };
    add_monitor_target(&mut manager, 2, form(MonitorTargetType::RemoteHost(remote)));
    let request = open_app_folder(&manager, 1).unwrap();
    assert_eq!(request.program, Some("C:\\x.exe".to_string()));
    assert_eq!(request.target.id, Some(1));
    assert_eq!(request.target.alias, "别名");
    assert_eq!(open_app_folder(&manager, 2).unwrap().program, None);
    assert_eq!(get_monitor_full_config(&manager, 2).unwrap().id, Some(2));
}

#[test]
fn log_query_leaves_out_debugging() {
    assert_eq!(
        log_query("info"),
        "SELECT log_time, log_level, log_message FROM SystemLog WHERE log_level != 'DEBUG' ORDER BY id DESC LIMIT 1000"
    );
    assert_eq!(
        log_query("debug"),
        "SELECT log_time, log_level, log_message FROM SystemLog ORDER BY id DESC LIMIT 1000"
    );
}

#[test]
fn log_times_are_shortened() {
    let today = "2026-03-04";
    let cases = [
        ("2026-03-04 10:11:12.345", " 10:11:12"),
        ("2026-03-03 10:11:12.345", "03-03 10:11:12"),
        ("2026-03-04", "03-04"),
        ("2026-", "2026-"),
        ("", ""),
        (".5", ""),
        ("2026-1", "1"),
    ];
    for (time, shown) in cases {
        assert_eq!(try_log_time(time, today), Some(shown.to_string()), "{:?}", time);
    }
}

fn row(time: &str, message: &str) -> Result<LogRow, String> {
    Ok(LogRow {
        time: time.to_string(),
        level: "INFO".to_string(),
        message: message.to_string(),
    })
}

#[test]
fn log_rows_become_entries() {
    let today = "2026-03-04";
    let rows = vec![row("2026-03-04 10:11:12.345", "a"), row("2026-03-03 10:11:12", "b")];
    assert!(are_log_times_sane(&rows, today));
    let logs = get_app_logs(&rows, today).unwrap();
    assert_eq!(logs.len(), 2);
    assert_eq!(logs[0].time, " 10:11:12");
    assert_eq!(logs[0].level, "INFO");
    assert_eq!(logs[0].message, "a");
    assert_eq!(logs[1].time, "03-03 10:11:12");
    assert_eq!(logs[1].message, "b");
    assert!(get_app_logs(&Vec::new(), today).unwrap().is_empty());
}

#[test]
fn unreadable_log_row_is_an_error() {
    let rows = vec![
        row("2026-03-04 10:11:12.345", "a"),
        Err("first".to_string()),
        row("中文", "never looked at"),
        Err("second".to_string()),
    ];
    assert!(are_log_times_sane(&rows, "2026-03-04"));
    assert_eq!(get_app_logs(&rows, "2026-03-04").unwrap_err().0, "first");
    assert!(!are_log_times_sane(&vec![row("中文", "x")], "2026-03-04"));
}

#[test]
fn log_times_are_cut_between_characters() {
    // Each of these characters takes three bytes.
    assert_eq!(try_log_time("中文", "2026"), None);
    assert_eq!(try_log_time("ab中文", "2026"), Some("文".to_string()));
    assert_eq!(try_log_time("中文字字", "中"), None);
    assert_eq!(try_log_time("中文字a字", "中"), Some("字".to_string()));
}

#[test]
fn all_tables_are_dropped() {
    let steps = reset_database(&vec!["MonitorTarget".to_string(), "AppConfig".to_string()]);
    let sql: Vec<&str> = steps.iter().map(|s| s.sql.as_str()).collect();
    assert_eq!(
        sql,
        vec![
            "DROP TABLE IF EXISTS \"MonitorTarget\"",
            "DROP TABLE IF EXISTS \"AppConfig\"",
            "VACUUM;",
            "PRAGMA foreign_keys = ON;",
        ]
    );
    assert_eq!(begin_reset().sql, "PRAGMA foreign_keys = OFF;");
    assert_eq!(begin_reset().failure("locked"), "locked");
    assert_eq!(steps[2].failure("locked"), "locked");
    assert_eq!(steps[1].failure("locked"), "删除表 AppConfig 失败: locked");
    assert_eq!(reset_database(&Vec::new()).len(), 2);
}

#[test]
fn old_entries_are_deleted_every_hundred() {
    let mut layer = SqliteLayer::new();
    let mut due: Vec<usize> = Vec::new();
    for i in 1..=350 {
        if layer.record() {
            due.push(i);
        }
    }
    assert_eq!(due, vec![100, 200, 300]);
    assert_eq!(layer.written, 50);
}

#[test]
fn last_message_field_counts() {
    let mut visitor = MessageVisitor::new();
    assert_eq!(visitor.message, "");
    visitor.record("other", "x".to_string());
    assert_eq!(visitor.message, "");
    visitor.record("message", "a".to_string());
    visitor.record("message", "b".to_string());
    visitor.record("messages", "c".to_string());
    assert_eq!(visitor.message, "b");
}
