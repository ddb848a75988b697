//! Monitor targets, their configuration and their latest records.
//!
//! Loads are floating point numbers that the library only carries: it holds
//! their IEEE 754 bits.

use crate::commands::{CommandError, MonitorTargetDto};
use std::collections::VecDeque;
use vstd::prelude::*;

verus! {

/// The number of console messages that a target keeps.
pub const CONSOLE_CAPACITY: usize = 2000;

/// A program to watch.
#[derive(Debug)]
pub struct LocalProcessConfig {
    pub path: String,
    pub auto_restart: bool,
    pub capture_output: bool,
}

/// A machine to sample over SSH.
#[derive(Debug)]
pub struct RemoteHostConfig {
    pub host: String,
    pub port: u16,
    pub username: String,
    pub password: String,
}

/// What a target watches.
#[derive(Debug)]
pub enum MonitorTargetType {
    LocalHost,
    LocalProcess(LocalProcessConfig),
    RemoteHost(RemoteHostConfig),
}

/// The state of the local machine.
#[derive(Debug)]
pub struct LocalHostMonitorRecord {
    pub mt_id: usize,
    pub cpu_usage_bits: u32,
    pub memory_usage: String,
    pub disk_usage_bits: u32,
    pub timestamp: String,
    pub download_speed: String,
    pub upload_speed: String,
    pub network_saturation: u8,
}

/// The state of a watched program.
#[derive(Clone, Copy, Debug)]
pub struct LocalProcessMonitorRecord {
    pub mt_id: usize,
    pub cpu_usage_bits: u64,
    pub memory_usage: u64,
    pub pid: u32,
    pub running: bool,
}

/// The state of a remote machine.
#[derive(Debug)]
pub struct RemoteHostMonitorRecord {
    pub mt_id: usize,
    pub cpu_usage_bits: u32,
    pub memory_usage: String,
    pub download_speed: String,
    pub upload_speed: String,
    pub timestamp: String,
    pub running: bool,
}

/// The state of a target.
#[derive(Debug)]
pub enum MonitorRecord {
    LocalHost(LocalHostMonitorRecord),
    LocalProcess(LocalProcessMonitorRecord),
    RemoteHost(RemoteHostMonitorRecord),
}

/// A notice to the user interface about a target.
#[derive(Debug)]
pub struct StatusSignal {
    pub mt_id: usize,
    pub target_type: String,
    pub signal: String,
    pub message: String,
}

/// A stored log line of a target.
#[derive(Debug)]
pub struct Log {
    pub id: usize,
    pub mt_id: usize,
    pub log_type: String,
    pub log_message: String,
    pub timestamp: String,
}

/// A piece of console output.
#[derive(Debug)]
pub struct ConsoleMsg {
    pub msg: String,
    pub time: String,
}

/// A target as the overview shows it.
#[derive(Debug)]
pub struct MonitorShowInfo {
    pub id: usize,
    pub alias: String,
    pub target_type: String,
    pub monitor_enabled: bool,
    pub performance_record: Option<MonitorRecord>,
}

/// A monitored target. A running task is known by its number.
#[derive(Debug)]
pub struct MonitorTarget {
    pub id: usize,
    pub target_type_cfg: MonitorTargetType,
    pub alias: String,
    pub monitor_enabled: bool,
    pub task_handle: Option<u64>,
    pub performance_records: VecDeque<MonitorRecord>,
    pub control_signal: String,
    pub console_outputs: VecDeque<ConsoleMsg>,
}

impl Clone for LocalProcessConfig {
    fn clone(&self) -> (res: Self)
        ensures
            res == *self,
    {
        LocalProcessConfig {
            path: self.path.clone(),
            auto_restart: self.auto_restart,
            capture_output: self.capture_output,
        }
    }
}

impl Clone for RemoteHostConfig {
    fn clone(&self) -> (res: Self)
        ensures
            res == *self,
    {
        RemoteHostConfig {
            host: self.host.clone(),
            port: self.port,
            username: self.username.clone(),
            password: self.password.clone(),
        }
    }
}

impl Clone for MonitorTargetType {
    fn clone(&self) -> (res: Self)
        ensures
            res == *self,
    {
        match self {
            MonitorTargetType::LocalHost => MonitorTargetType::LocalHost,
            MonitorTargetType::LocalProcess(cfg) => MonitorTargetType::LocalProcess(cfg.clone()),
            MonitorTargetType::RemoteHost(cfg) => MonitorTargetType::RemoteHost(cfg.clone()),
        }
    }
}

impl Clone for LocalHostMonitorRecord {
    fn clone(&self) -> (res: Self)
        ensures
            res == *self,
    {
        LocalHostMonitorRecord {
            mt_id: self.mt_id,
            cpu_usage_bits: self.cpu_usage_bits,
            memory_usage: self.memory_usage.clone(),
            disk_usage_bits: self.disk_usage_bits,
            timestamp: self.timestamp.clone(),
            download_speed: self.download_speed.clone(),
            upload_speed: self.upload_speed.clone(),
            network_saturation: self.network_saturation,
        }
    }
}

impl Clone for RemoteHostMonitorRecord {
    fn clone(&self) -> (res: Self)
        ensures
            res == *self,
    {
        RemoteHostMonitorRecord {
            mt_id: self.mt_id,
            cpu_usage_bits: self.cpu_usage_bits,
            memory_usage: self.memory_usage.clone(),
            download_speed: self.download_speed.clone(),
            upload_speed: self.upload_speed.clone(),
            timestamp: self.timestamp.clone(),
            running: self.running,
        }
    }
}

impl Clone for MonitorRecord {
    fn clone(&self) -> (res: Self)
        ensures
            res == *self,
    {
        match self {
            MonitorRecord::LocalHost(r) => MonitorRecord::LocalHost(r.clone()),
            MonitorRecord::LocalProcess(r) => MonitorRecord::LocalProcess(*r),
            MonitorRecord::RemoteHost(r) => MonitorRecord::RemoteHost(r.clone()),
        }
    }
}

impl Clone for ConsoleMsg {
    fn clone(&self) -> (res: Self)
        ensures
            res == *self,
    {
        ConsoleMsg { msg: self.msg.clone(), time: self.time.clone() }
    }
}

impl Clone for MonitorShowInfo {
    fn clone(&self) -> (res: Self)
        ensures
            res == *self,
    {
        MonitorShowInfo {
            id: self.id,
            alias: self.alias.clone(),
            target_type: self.target_type.clone(),
            monitor_enabled: self.monitor_enabled,
            performance_record: match &self.performance_record {
                Some(record) => Some(record.clone()),
                None => None,
            },
        }
    }
}

impl MonitorTargetType {
    /// The name of the kind of target.
    pub open spec fn name(self) -> Seq<char> {
        match self {
            MonitorTargetType::LocalHost => "LocalHost"@,
            MonitorTargetType::LocalProcess(_) => "LocalProcess"@,
            MonitorTargetType::RemoteHost(_) => "RemoteHost"@,
        }
    }

    /// The name of the kind of target.
    pub fn to_string(&self) -> (res: String)
        ensures
            res@ == self.name(),
    {
        match self {
            MonitorTargetType::LocalHost => "LocalHost".to_string(),
            MonitorTargetType::LocalProcess(_) => "LocalProcess".to_string(),
            MonitorTargetType::RemoteHost(_) => "RemoteHost".to_string(),
        }
    }
}

/// The records after the oldest made room for a new first one.
pub open spec fn replaced(records: Seq<MonitorRecord>, record: MonitorRecord) -> Seq<
    MonitorRecord,
> {
    let kept = if records.len() > 0 {
        records.drop_last()
    } else {
        records
    };
    seq![record] + kept
}

/// The console messages after one more; only the latest are kept.
pub open spec fn appended(messages: Seq<ConsoleMsg>, msg: ConsoleMsg) -> Seq<ConsoleMsg> {
    let all = messages.push(msg);
    if all.len() > CONSOLE_CAPACITY {
        all.drop_first()
    } else {
        all
    }
}

/// The work that a started target asks for.
#[derive(Debug)]
pub enum MonitorJob {
    /// Sample the local machine.
    LocalHost,
    /// Watch a program.
    LocalProcess(LocalProcessConfig),
    /// Sample a remote machine.
    RemoteHost(RemoteHostConfig),
}

/// The work that a kind of target stands for.
pub open spec fn job_of(cfg: MonitorTargetType) -> MonitorJob {
    match cfg {
        MonitorTargetType::LocalHost => MonitorJob::LocalHost,
        MonitorTargetType::LocalProcess(c) => MonitorJob::LocalProcess(c),
        MonitorTargetType::RemoteHost(c) => MonitorJob::RemoteHost(c),
    }
}

impl MonitorTarget {
    /// A target that has nothing running yet.
    pub fn new(
        id: usize,
        target_type: MonitorTargetType,
        alias: String,
        monitor_enabled: bool,
    ) -> (res: Result<Self, CommandError>)
        ensures
            res matches Ok(target) && {
                &&& target.id == id
                &&& target.target_type_cfg == target_type
                &&& target.alias == alias
                &&& target.monitor_enabled == monitor_enabled
                &&& target.task_handle is None
                &&& target.performance_records@ == Seq::<MonitorRecord>::empty()
                &&& target.control_signal@ == Seq::<char>::empty()
                &&& target.console_outputs@ == Seq::<ConsoleMsg>::empty()
            },
    {
        Ok(
            MonitorTarget {
                id,
                target_type_cfg: target_type,
                alias,
                monitor_enabled,
                task_handle: None,
                performance_records: VecDeque::new(),
                control_signal: String::new(),
                console_outputs: VecDeque::new(),
            },
        )
    }

    /// The target once a task that has ended is forgotten.
    pub open spec fn reconciled(self, finished: bool) -> MonitorTarget {
        if self.task_handle is Some && finished {
            MonitorTarget { task_handle: None, monitor_enabled: false, ..self }
        } else {
            self
        }
    }

    /// Forgets the task if it has ended; `finished` says whether it has.
    pub fn reconcile_runtime_state(&mut self, finished: bool)
        ensures
            *final(self) == old(self).reconciled(finished),
    {
        if self.task_handle.is_some() && finished {
            self.task_handle = None;
            self.monitor_enabled = false;
        }
    }

    /// The target once it was asked to start as the task numbered `task`.
    pub open spec fn started(self, finished: bool, task: u64) -> MonitorTarget {
        let ready = self.reconciled(finished);
        if ready.task_handle is Some {
            ready
        } else {
            MonitorTarget { task_handle: Some(task), monitor_enabled: true, ..ready }
        }
    }

    /// The target once it was asked to stop.
    pub open spec fn stopped(self, finished: bool) -> MonitorTarget {
        let ready = self.reconciled(finished);
        if ready.task_handle is Some {
            MonitorTarget { task_handle: None, monitor_enabled: false, ..ready }
        } else {
            ready
        }
    }

    /// The task that is running.
    pub open spec fn running_task(self, finished: bool) -> Option<u64> {
        self.reconciled(finished).task_handle
    }

    /// Starts the target as the task numbered `task`, unless one is running.
    /// The result is the work that the task has to do.
    pub fn start_monitor(&mut self, finished: bool, task: u64) -> (res: Option<MonitorJob>)
        ensures
            *final(self) == old(self).started(finished, task),
            res == (if old(self).running_task(finished) is Some {
                None
            } else {
                Some(job_of(old(self).target_type_cfg))
            }),
    {
        self.reconcile_runtime_state(finished);
        if self.task_handle.is_some() {
            return None;
        }
        let job = match &self.target_type_cfg {
            MonitorTargetType::LocalHost => MonitorJob::LocalHost,
            MonitorTargetType::LocalProcess(cfg) => MonitorJob::LocalProcess(cfg.clone()),
            MonitorTargetType::RemoteHost(cfg) => MonitorJob::RemoteHost(cfg.clone()),
        };
        self.task_handle = Some(task);
        self.monitor_enabled = true;
        Some(job)
    }

    /// Stops the target. The result is the task that has to come to an end.
    pub fn stop_monitor(&mut self, finished: bool) -> (res: Option<u64>)
        ensures
            *final(self) == old(self).stopped(finished),
            res == old(self).running_task(finished),
    {
        self.reconcile_runtime_state(finished);
        match self.task_handle {
            Some(task) => {
                self.monitor_enabled = false;
                self.task_handle = None;
                Some(task)
            },
            None => None,
        }
    }

    /// The first record, if there is any.
    pub open spec fn latest(self) -> Option<MonitorRecord> {
        if self.performance_records@.len() > 0 {
            Some(self.performance_records@[0])
        } else {
            None
        }
    }

    /// The latest record.
    pub fn get_latest_performance(&self) -> (res: Option<MonitorRecord>)
        ensures
            res == self.latest(),
    {
        if self.performance_records.len() > 0 {
            Some(self.performance_records[0].clone())
        } else {
            None
        }
    }

    /// Whether `info` is how the overview shows this target.
    pub open spec fn shown_as(self, info: MonitorShowInfo) -> bool {
        &&& info.id == self.id
        &&& info.alias == self.alias
        &&& info.target_type@ == self.target_type_cfg.name()
        &&& info.monitor_enabled == self.monitor_enabled
        &&& info.performance_record == self.latest()
    }

    /// How the overview shows the target, once a task that has ended is forgotten.
    pub fn show_info(&mut self, finished: bool) -> (res: MonitorShowInfo)
        ensures
            *final(self) == old(self).reconciled(finished),
            final(self).shown_as(res),
    {
        self.reconcile_runtime_state(finished);
        MonitorShowInfo {
            id: self.id,
            alias: self.alias.clone(),
            target_type: self.target_type_cfg.to_string(),
            monitor_enabled: self.monitor_enabled,
            performance_record: self.get_latest_performance(),
        }
    }

    /// The target as the user interface edits it.
    pub fn get_config(&self) -> (res: MonitorTargetDto)
        ensures
            res.id == Some(self.id),
            res.target_type == self.target_type_cfg,
            res.alias == self.alias,
    {
        MonitorTargetDto {
            id: Some(self.id),
            target_type: self.target_type_cfg.clone(),
            alias: self.alias.clone(),
        }
    }

    /// Puts a record first; the last one makes room for it.
    pub fn replace_record(&mut self, record: MonitorRecord)
        ensures
            final(self).performance_records@ == replaced(old(self).performance_records@, record),
            *final(self) == (MonitorTarget {
                performance_records: final(self).performance_records,
                ..*old(self)
            }),
    {
        let _ = self.performance_records.pop_back();
        self.performance_records.push_front(record);
        assert(self.performance_records@ =~= replaced(old(self).performance_records@, record));
    }

    /// Puts a record first and keeps all others.
    pub fn push_record(&mut self, record: MonitorRecord)
        ensures
            final(self).performance_records@ == seq![record] + old(self).performance_records@,
            *final(self) == (MonitorTarget {
                performance_records: final(self).performance_records,
                ..*old(self)
            }),
    {
        self.performance_records.push_front(record);
    }

    /// Appends a console message; only the latest are kept.
    pub fn push_console(&mut self, msg: ConsoleMsg)
        ensures
            final(self).console_outputs@ == appended(old(self).console_outputs@, msg),
            *final(self) == (MonitorTarget {
                console_outputs: final(self).console_outputs,
                ..*old(self)
            }),
    {
        self.console_outputs.push_back(msg);
        if self.console_outputs.len() > CONSOLE_CAPACITY {
            let _ = self.console_outputs.pop_front();
        }
        assert(self.console_outputs@ =~= appended(old(self).console_outputs@, msg));
    }

    /// Takes the pending control signal, leaving none. Empty stands for none.
    pub fn take_signal(&mut self) -> (res: String)
        ensures
            res@ == old(self).control_signal@,
            final(self).control_signal@ == Seq::<char>::empty(),
            *final(self) == (MonitorTarget {
                control_signal: final(self).control_signal,
                ..*old(self)
            }),
    {
        let signal = self.control_signal.clone();
        self.control_signal = String::new();
        signal
    }
}

/// A target that was started has a task and is switched on; starting it again
/// changes nothing while the task runs.
pub proof fn law_start_is_idempotent(
    target: MonitorTarget,
    finished: bool,
    task: u64,
    other: u64,
)
    ensures
        target.started(finished, task).task_handle is Some,
        target.running_task(finished) is None ==> target.started(finished, task).monitor_enabled,
        target.started(finished, task).started(false, other) == target.started(finished, task),
{
}

/// Stopping a target that was just started ends the task that it was started as.
pub proof fn law_stop_ends_what_was_started(target: MonitorTarget, finished: bool, task: u64)
    requires
        target.running_task(finished) is None,
    ensures
        target.started(finished, task).running_task(false) == Some(task),
        target.started(finished, task).stopped(false).task_handle is None,
        !target.started(finished, task).stopped(false).monitor_enabled,
{
}

/// Whether a target that has a task is switched on.
pub open spec fn runs_only_if_enabled(target: MonitorTarget) -> bool {
    target.task_handle is Some ==> target.monitor_enabled
}

/// Only a target that is switched on has a task: starting, stopping and noticing
/// that a task has ended keep it so.
pub proof fn law_runs_only_if_enabled(target: MonitorTarget, finished: bool, task: u64)
    requires
        runs_only_if_enabled(target),
    ensures
        runs_only_if_enabled(target.reconciled(finished)),
        runs_only_if_enabled(target.started(finished, task)),
        runs_only_if_enabled(target.stopped(finished)),
{
}

/// A target never keeps more console messages than its capacity, and always the
/// latest one.
pub proof fn law_console_is_bounded(messages: Seq<ConsoleMsg>, msg: ConsoleMsg)
    requires
        messages.len() <= CONSOLE_CAPACITY,
    ensures
        appended(messages, msg).len() <= CONSOLE_CAPACITY,
        appended(messages, msg).last() == msg,
{
}

/// The record put first is the latest one, and there are as many as before, or
/// one.
pub proof fn law_replaced_record_is_latest(records: Seq<MonitorRecord>, record: MonitorRecord)
    ensures
        replaced(records, record)[0] == record,
        replaced(records, record).len() == if records.len() > 0 {
            records.len()
        } else {
            1
        },
{
}

/// A target whose task has ended, or that never had one, is started as the new task
/// and switched on; one whose task runs stays as it is. Nothing else changes.
pub proof fn law_start_takes_the_new_task(target: MonitorTarget, finished: bool, task: u64)
    ensures
        target.task_handle is None || finished ==> target.started(finished, task) == (
        MonitorTarget { task_handle: Some(task), monitor_enabled: true, ..target }),
        target.task_handle is Some && !finished ==> target.started(finished, task) == target,
{
}

/// A target that has a task, ended or not, has none once it was stopped, and is
/// switched off; one without a task stays as it is. Nothing else changes.
pub proof fn law_stop_takes_the_task_away(target: MonitorTarget, finished: bool)
    ensures
        target.task_handle is Some ==> target.stopped(finished) == (MonitorTarget {
            task_handle: None,
            monitor_enabled: false,
            ..target
        }),
        target.task_handle is None ==> target.stopped(finished) == target,
        target.running_task(finished) == (if finished {
            None
        } else {
            target.task_handle
        }),
{
}

/// That a task has ended is noticed: the target has no task then and is switched
/// off. Nothing changes while the task runs or where there is none.
pub proof fn law_ended_task_is_forgotten(target: MonitorTarget)
    ensures
        target.task_handle is Some ==> target.reconciled(true) == (MonitorTarget {
            task_handle: None,
            monitor_enabled: false,
            ..target
        }),
        target.task_handle is None ==> target.reconciled(true) == target,
        target.reconciled(false) == target,
{
}

/// The work of a started target is that of its kind, with its own configuration.
pub proof fn law_job_is_that_of_the_target(
    target: MonitorTargetType,
    program: LocalProcessConfig,
    remote: RemoteHostConfig,
)
    ensures
        job_of(MonitorTargetType::LocalHost) == MonitorJob::LocalHost,
        job_of(MonitorTargetType::LocalProcess(program)) == MonitorJob::LocalProcess(program),
        job_of(MonitorTargetType::RemoteHost(remote)) == MonitorJob::RemoteHost(remote),
        target.name() == match job_of(target) {
            MonitorJob::LocalHost => "LocalHost"@,
            MonitorJob::LocalProcess(_) => "LocalProcess"@,
            MonitorJob::RemoteHost(_) => "RemoteHost"@,
        },
{
}

/// A new record comes first; the others follow in their order, but for the oldest,
/// which makes room.
pub proof fn law_oldest_record_makes_room(records: Seq<MonitorRecord>, record: MonitorRecord)
    ensures
        replaced(records, record)[0] == record,
        forall|i: int|
            0 < i < replaced(records, record).len() ==> #[trigger] replaced(records, record)[i]
                == records[i - 1],
        replaced(Seq::empty(), record) == seq![record],
        records.len() > 0 ==> replaced(records, record).len() == records.len(),
{
    assert(replaced(Seq::empty(), record) =~= seq![record]);
}

/// Console messages are kept in their order, the latest two thousand of them.
pub proof fn law_latest_messages_are_kept(messages: Seq<ConsoleMsg>, msg: ConsoleMsg)
    ensures
        messages.len() < 2000 ==> appended(messages, msg) == messages.push(msg),
        messages.len() == 2000 ==> appended(messages, msg) == messages.skip(1).push(msg),
{
    if messages.len() == 2000 {
        assert(appended(messages, msg) =~= messages.skip(1).push(msg));
    }
}

/// The overview shows a target by its number, its alias, its kind, whether it is
/// switched on, and its latest record.
pub proof fn law_overview_shows_the_target(target: MonitorTarget, info: MonitorShowInfo)
    requires
        target.shown_as(info),
    ensures
        info.id == target.id,
        info.alias@ == target.alias@,
        info.target_type@ == target.target_type_cfg.name(),
        info.monitor_enabled == target.monitor_enabled,
        target.performance_records@.len() == 0 ==> info.performance_record is None,
        target.performance_records@.len() > 0 ==> info.performance_record == Some(
            target.performance_records@[0],
        ),
{
}

} // verus!
