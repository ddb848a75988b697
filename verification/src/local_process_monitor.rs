//! Watching a program: starting, stopping and measuring it.

use crate::monitor::{
    replaced, LocalProcessConfig, LocalProcessMonitorRecord, MonitorRecord, MonitorTarget,
    StatusSignal,
};
use crate::paths::{
    file_name, is_directory, is_file_name, is_plain_name, law_directory_and_name,
    law_name_at_the_start, leads_twice, normalize_path, normalized, parent, stands_in, text_of,
};
use crate::process_sampler::{
    belongs, distinct, family, finds_program, is_tree_usage, law_family_is_complete,
    law_family_is_the_line_of_descent, law_process_is_known_by_its_number, lookup, measurable,
    own_ancestor, successor, ProcStat, ProcessInfo, ProcessSampler, ProcessTable,
};
use vstd::prelude::*;
use vstd::string::StringExecFns;

verus! {

/// The text that the `Debug` format of std gives for a string: in quotes, with
/// escapes where they are needed.
pub uninterp spec fn debug_text(s: Seq<char>) -> Seq<char>;

/// `format!` of std with `{:?}` on a string. The result is claimed to depend on
/// the string alone.
#[verifier::external_body]
fn quoted(s: &String) -> (res: String)
    ensures
        res@ == debug_text(s@),
{
    format!("{:?}", s)
}

/// The text that the `Debug` format of std gives for a path: in quotes, with
/// escapes where they are needed.
pub uninterp spec fn path_debug_text(path: Seq<char>) -> Seq<char>;

/// `format!` of std with `{:?}` on a `Path`. The result is claimed to depend on
/// the text of the path alone.
#[verifier::external_body]
fn quoted_path(path: &String) -> (res: String)
    ensures
        res@ == path_debug_text(path@),
{
    format!("{:?}", std::path::Path::new(path))
}

/// What the watch over a program waits for.
#[derive(Clone, Copy, Debug, PartialEq, Eq, Structural)]
pub enum ProgramPhase {
    /// Whether the program can be run at all.
    Checking,
    /// The next round.
    Turning,
    /// The end of the program, which the user stopped.
    Stopping,
    /// The start of the program, which the user asked for.
    Starting,
    /// A new look at the processes after that.
    Refreshing,
    /// What the program uses.
    Measuring,
    /// Whether the program runs.
    Searching,
    /// A moment before it is started again.
    Resting,
    /// The new start of the program.
    Restarting,
    /// The end of the program, with which the watch ends.
    Closing,
    /// Nothing.
    Ended,
}

/// What the watch over a program asks for.
#[derive(Clone, Copy, Debug, PartialEq, Eq, Structural)]
pub enum ProgramAction {
    /// Close down a process and its descendants.
    Kill(u32),
    /// Start the program.
    Start,
    /// Look at the processes anew.
    Refresh,
    /// Measure the tree of a process.
    Measure(u32),
    /// Look for a process that runs the program.
    Search,
    /// Go on in a second.
    Pause,
    /// Go on at once.
    Again,
    /// Nothing more.
    End,
}

/// The answer to what the watch over a program asked for.
#[derive(Debug)]
pub enum ProgramEvent {
    /// Whether there is something at the path, and whether it is a directory.
    PathChecked { exists: bool, directory: bool },
    /// A pause is over.
    Resumed,
    /// A process was closed down.
    Killed,
    /// The program was started as a process, or could not be.
    Started(Result<u32, String>),
    /// The processes were looked at.
    Refreshed,
    /// What a tree uses.
    Measured { cpu_usage_bits: u64, memory: u64 },
    /// A process that runs the program.
    Found(Option<u32>),
}

/// The answer that a phase waits for.
pub open spec fn answers(phase: ProgramPhase, event: ProgramEvent) -> bool {
    match phase {
        ProgramPhase::Checking => event is PathChecked,
        ProgramPhase::Turning => event is Resumed,
        ProgramPhase::Stopping => event is Killed,
        ProgramPhase::Starting => event is Started,
        ProgramPhase::Refreshing => event is Refreshed,
        ProgramPhase::Measuring => event is Measured,
        ProgramPhase::Searching => event is Found,
        ProgramPhase::Resting => event is Resumed,
        ProgramPhase::Restarting => event is Started,
        ProgramPhase::Closing => event is Killed,
        ProgramPhase::Ended => false,
    }
}

/// The record of a program that does not run.
pub open spec fn idle_record(id: usize) -> MonitorRecord {
    MonitorRecord::LocalProcess(
        LocalProcessMonitorRecord {
            mt_id: id,
            cpu_usage_bits: 0,
            memory_usage: 0,
            pid: 0,
            running: false,
        },
    )
}

/// The record of a program that was just started.
pub open spec fn started_record(id: usize) -> MonitorRecord {
    MonitorRecord::LocalProcess(
        LocalProcessMonitorRecord {
            mt_id: id,
            cpu_usage_bits: 0,
            memory_usage: 0,
            pid: 0,
            running: true,
        },
    )
}

/// The record of a program that runs.
pub open spec fn running_record(
    id: usize,
    pid: u32,
    cpu_usage_bits: u64,
    memory: u64,
) -> MonitorRecord {
    MonitorRecord::LocalProcess(
        LocalProcessMonitorRecord {
            mt_id: id,
            cpu_usage_bits,
            memory_usage: memory,
            pid,
            running: true,
        },
    )
}

/// The signal and the message of each notice.
pub open spec fn told(statuses: Seq<StatusSignal>) -> Seq<(Seq<char>, Seq<char>)> {
    statuses.map_values(|s: StatusSignal| (s.signal@, s.message@))
}

/// Whether all notices are about the program with the given number.
pub open spec fn addressed(statuses: Seq<StatusSignal>, id: usize) -> bool {
    forall|i: int|
        0 <= i < statuses.len() ==> (#[trigger] statuses[i]).mt_id == id
            && statuses[i].target_type@ == "LocalProcess"@
}

/// The state of the watch over a program, with what has been done so far in
/// answer to an event.
pub struct ProgramView {
    /// What it waits for.
    pub phase: ProgramPhase,
    /// The process that is watched.
    pub pid: Option<u32>,
    /// Whether the user stopped the program; it is not started again by itself.
    pub temp_stop: bool,
    /// The records of the target.
    pub records: Seq<MonitorRecord>,
    /// The pending control signal of the target.
    pub signal: Seq<char>,
    /// The notices to the user interface.
    pub told: Seq<(Seq<char>, Seq<char>)>,
    /// What it asks for.
    pub action: ProgramAction,
}

impl ProgramView {
    /// Waiting for the answer to what it asks for.
    pub open spec fn asks(self, phase: ProgramPhase, action: ProgramAction) -> ProgramView {
        ProgramView { phase, action, ..self }
    }

    /// With one more notice.
    pub open spec fn tells(self, signal: Seq<char>, message: Seq<char>) -> ProgramView {
        ProgramView { told: self.told.push((signal, message)), ..self }
    }

    /// With a record in place of the last one.
    pub open spec fn shows(self, record: MonitorRecord) -> ProgramView {
        ProgramView { records: replaced(self.records, record), ..self }
    }
}

/// Whether a program has the last name of its path; nothing if there is none.
pub open spec fn names_program(path: Seq<char>, name: Seq<char>) -> bool {
    is_file_name(path, Some(name)) || (is_file_name(path, None) && name.len() == 0)
}

/// The watch over a program.
#[derive(Debug)]
pub struct ProgramMonitor {
    pub id: usize,
    /// The alias of the target, in quotes.
    pub shown_alias: String,
    pub path: String,
    pub program_name: String,
    pub auto_restart: bool,
    pub capture_output: bool,
    pub phase: ProgramPhase,
    pub pid_running: Option<u32>,
    pub temp_stop: bool,
}

/// The state of a watch and its target.
pub open spec fn view_of(
    monitor: ProgramMonitor,
    target: MonitorTarget,
    statuses: Seq<StatusSignal>,
    action: ProgramAction,
) -> ProgramView {
    ProgramView {
        phase: monitor.phase,
        pid: monitor.pid_running,
        temp_stop: monitor.temp_stop,
        records: target.performance_records@,
        signal: target.control_signal@,
        told: told(statuses),
        action,
    }
}

impl ProgramMonitor {
    /// A process is being watched in the phases that are about one, and in no
    /// other but the next round.
    pub open spec fn sound(self, v: ProgramView) -> bool {
        match v.phase {
            ProgramPhase::Refreshing | ProgramPhase::Measuring | ProgramPhase::Closing => {
                v.pid is Some
            },
            ProgramPhase::Turning | ProgramPhase::Ended => true,
            ProgramPhase::Resting | ProgramPhase::Restarting => v.pid is None && self.auto_restart
                && !v.temp_stop,
            ProgramPhase::Stopping => v.pid is None && v.temp_stop,
            _ => v.pid is None,
        }
    }

    /// Whether the watch is in a sound state.
    pub open spec fn well_formed(self) -> bool {
        self.sound(
            ProgramView {
                phase: self.phase,
                pid: self.pid_running,
                temp_stop: self.temp_stop,
                records: Seq::empty(),
                signal: Seq::empty(),
                told: Seq::empty(),
                action: ProgramAction::End,
            },
        )
    }

    /// Whether two watches differ in their state at most.
    pub open spec fn same_program(self, other: ProgramMonitor) -> bool {
        self == (ProgramMonitor {
            phase: self.phase,
            pid_running: self.pid_running,
            temp_stop: self.temp_stop,
            ..other
        })
    }

    /// Looking at the watched process: one that runs is measured; a child with
    /// the name of the program takes over from one that does not; otherwise it
    /// is gone. If none is watched, one is looked for.
    pub open spec fn watched(self, procs: Seq<ProcessInfo>, v: ProgramView) -> ProgramView {
        match v.pid {
            None => v.asks(ProgramPhase::Searching, ProgramAction::Search),
            Some(pid) => if lookup(procs, pid) is Some {
                v.asks(ProgramPhase::Measuring, ProgramAction::Measure(pid))
            } else {
                match successor(procs, pid, self.program_name@) {
                    Some(next) => (ProgramView { pid: Some(next), ..v }).asks(
                        ProgramPhase::Turning,
                        ProgramAction::Again,
                    ),
                    None => (ProgramView { pid: None, ..v }).shows(idle_record(self.id)).tells(
                        "refresh"@,
                        ""@,
                    ).asks(ProgramPhase::Turning, ProgramAction::Pause),
                }
            },
        }
    }

    /// The user stopped the program.
    pub open spec fn stopped(self, procs: Seq<ProcessInfo>, v: ProgramView) -> ProgramView {
        self.watched(
            procs,
            v.shows(idle_record(self.id)).tells(
                "stop"@,
                self.shown_alias@ + " 已停止运行"@,
            ),
        )
    }

    /// The user started the program, or it was running.
    pub open spec fn started(self, procs: Seq<ProcessInfo>, v: ProgramView) -> ProgramView {
        let shown = v.tells("start"@, self.shown_alias@ + " 已启动"@);
        self.watched(procs, ProgramView { temp_stop: false, ..shown })
    }

    /// A round: the watch ends if the target is disabled, and the program with
    /// it; a control signal is dealt with; then the process is looked at.
    pub open spec fn turned(
        self,
        procs: Seq<ProcessInfo>,
        enabled: bool,
        v: ProgramView,
    ) -> ProgramView {
        if !enabled {
            match v.pid {
                Some(pid) => v.asks(ProgramPhase::Closing, ProgramAction::Kill(pid)),
                None => v.asks(ProgramPhase::Ended, ProgramAction::End),
            }
        } else {
            let heard = ProgramView { signal: Seq::empty(), ..v };
            if v.signal == "stop"@ {
                let still = ProgramView { pid: None, temp_stop: true, ..heard };
                match v.pid {
                    Some(pid) if lookup(procs, pid) is Some => still.asks(
                        ProgramPhase::Stopping,
                        ProgramAction::Kill(pid),
                    ),
                    _ => self.stopped(procs, still),
                }
            } else if v.signal == "start"@ {
                if v.pid is None {
                    heard.asks(ProgramPhase::Starting, ProgramAction::Start)
                } else {
                    self.started(procs, heard)
                }
            } else {
                self.watched(procs, heard)
            }
        }
    }

    /// The state after the answer to what the watch asked for.
    pub open spec fn answered(
        self,
        procs: Seq<ProcessInfo>,
        enabled: bool,
        v: ProgramView,
        event: ProgramEvent,
    ) -> ProgramView {
        match (v.phase, event) {
            (ProgramPhase::Checking, ProgramEvent::PathChecked { exists, directory }) => if exists
                && !directory {
                self.turned(procs, enabled, v.tells("enable"@, "监控任务启动成功:"@))
            } else {
                v.tells("error"@, "程序路径不存在: "@ + path_debug_text(self.path@)).asks(
                    ProgramPhase::Ended,
                    ProgramAction::End,
                )
            },
            (ProgramPhase::Turning, _) => self.turned(procs, enabled, v),
            (ProgramPhase::Stopping, _) => self.stopped(procs, v),
            (ProgramPhase::Starting, ProgramEvent::Started(Ok(pid))) => (ProgramView {
                pid: Some(pid),
                records: seq![started_record(self.id)] + v.records,
                ..v
            }).asks(ProgramPhase::Refreshing, ProgramAction::Refresh),
            (ProgramPhase::Starting, ProgramEvent::Started(Err(e))) => v.tells(
                "error"@,
                "应用启动失败: "@ + e@,
            ).asks(ProgramPhase::Ended, ProgramAction::End),
            (ProgramPhase::Refreshing, _) => self.started(procs, v),
            (ProgramPhase::Measuring, ProgramEvent::Measured { cpu_usage_bits, memory }) => v.shows(
                running_record(self.id, v.pid->0, cpu_usage_bits, memory),
            ).asks(ProgramPhase::Turning, ProgramAction::Pause),
            (ProgramPhase::Searching, ProgramEvent::Found(pid)) => (ProgramView { pid, ..v }).asks(
                if pid is None && self.auto_restart && !v.temp_stop {
                    ProgramPhase::Resting
                } else {
                    ProgramPhase::Turning
                },
                ProgramAction::Pause,
            ),
            (ProgramPhase::Resting, _) => v.asks(ProgramPhase::Restarting, ProgramAction::Start),
            (ProgramPhase::Restarting, ProgramEvent::Started(res)) => (ProgramView {
                pid: match res {
                    Ok(pid) => Some(pid),
                    Err(_) => None,
                },
                ..v
            }).asks(ProgramPhase::Turning, ProgramAction::Pause),
            (_, _) => v.asks(ProgramPhase::Ended, ProgramAction::End),
        }
    }

    /// Whether this is the watch over a configured program when it begins.
    pub open spec fn begins_as(
        self,
        id: usize,
        config: LocalProcessConfig,
        alias: Seq<char>,
        windows: bool,
    ) -> bool {
        &&& self.shown_alias@ == debug_text(alias)
        &&& self.path@ == normalized(config.path@, windows)
        &&& names_program(self.path@, self.program_name@)
        &&& self == (ProgramMonitor {
            id,
            shown_alias: self.shown_alias,
            path: self.path,
            program_name: self.program_name,
            auto_restart: config.auto_restart,
            capture_output: config.capture_output,
            phase: ProgramPhase::Checking,
            pid_running: None,
            temp_stop: false,
        })
    }

    /// Begins to watch a program, which does not run as far as is known. Its path
    /// is written as the platform does; its processes have the last name of it.
    pub fn begin(
        target: &mut MonitorTarget,
        id: usize,
        config: &LocalProcessConfig,
        alias: &String,
        windows: bool,
    ) -> (res: Self)
        ensures
            final(target).performance_records@ == seq![idle_record(id)]
                + old(target).performance_records@,
            *final(target) == (MonitorTarget {
                performance_records: final(target).performance_records,
                ..*old(target)
            }),
            res.begins_as(id, *config, alias@, windows),
            res.well_formed(),
    {
        target.push_record(
            MonitorRecord::LocalProcess(
                LocalProcessMonitorRecord {
                    mt_id: id,
                    cpu_usage_bits: 0,
                    memory_usage: 0,
                    pid: 0,
                    running: false,
                },
            ),
        );
        let path = normalize_path(config.path.as_str(), windows);
        let program_name = match file_name(path.as_str()) {
            Some(name) => name,
            None => String::new(),
        };
        ProgramMonitor {
            id,
            shown_alias: quoted(alias),
            path,
            program_name,
            auto_restart: config.auto_restart,
            capture_output: config.capture_output,
            phase: ProgramPhase::Checking,
            pid_running: None,
            temp_stop: false,
        }
    }

    /// Whether the watch waits for an answer of this kind.
    pub fn accepts(&self, event: &ProgramEvent) -> (res: bool)
        ensures
            res == answers(self.phase, *event),
    {
        match (self.phase, event) {
            (ProgramPhase::Checking, ProgramEvent::PathChecked { .. }) => true,
            (ProgramPhase::Turning, ProgramEvent::Resumed) => true,
            (ProgramPhase::Stopping, ProgramEvent::Killed) => true,
            (ProgramPhase::Starting, ProgramEvent::Started(_)) => true,
            (ProgramPhase::Refreshing, ProgramEvent::Refreshed) => true,
            (ProgramPhase::Measuring, ProgramEvent::Measured { .. }) => true,
            (ProgramPhase::Searching, ProgramEvent::Found(_)) => true,
            (ProgramPhase::Resting, ProgramEvent::Resumed) => true,
            (ProgramPhase::Restarting, ProgramEvent::Started(_)) => true,
            (ProgramPhase::Closing, ProgramEvent::Killed) => true,
            _ => false,
        }
    }

    /// Answers which process runs the program.
    pub fn search(&self, sampler: &ProcessSampler) -> (res: ProgramEvent)
        ensures
            res matches ProgramEvent::Found(found) && finds_program(
                sampler.table@,
                self.path@,
                found,
            ),
    {
        ProgramEvent::Found(sampler.find_process_by_path(self.path.as_str()))
    }

    /// What the tree of the watched process uses. There is no answer if the tree
    /// cannot be measured.
    pub fn usage(&self, sampler: &ProcessSampler) -> (res: Option<ProcStat>)
        requires
            self.pid_running is Some,
        ensures
            match res {
                Some(stat) => is_tree_usage(stat, sampler.table@, self.pid_running->0),
                None => !measurable(sampler.table@, self.pid_running->0),
            },
    {
        sampler.try_process_tree_usage(self.pid_running.unwrap())
    }

    /// Answers what a tree uses, given its load, as its bits.
    pub fn measured(stat: &ProcStat, cpu_usage_bits: u64) -> (res: ProgramEvent)
        ensures
            res == (ProgramEvent::Measured { cpu_usage_bits, memory: stat.memory }),
    {
        ProgramEvent::Measured { cpu_usage_bits, memory: stat.memory }
    }

    /// Notes what to tell the user interface.
    fn tell(&self, statuses: &mut Vec<StatusSignal>, signal: &str, message: String)
        requires
            addressed(old(statuses)@, self.id),
        ensures
            addressed(final(statuses)@, self.id),
            told(final(statuses)@) == told(old(statuses)@).push((signal@, message@)),
    {
        statuses.push(
            StatusSignal {
                mt_id: self.id,
                target_type: "LocalProcess".to_string(),
                signal: signal.to_string(),
                message,
            },
        );
        assert(told(statuses@) =~= told(old(statuses)@).push((signal@, message@)));
    }

    /// Shows that the program does not run.
    fn show_idle(&self, target: &mut MonitorTarget)
        ensures
            final(target).performance_records@ == replaced(
                old(target).performance_records@,
                idle_record(self.id),
            ),
            *final(target) == (MonitorTarget {
                performance_records: final(target).performance_records,
                ..*old(target)
            }),
    {
        target.replace_record(
            MonitorRecord::LocalProcess(
                LocalProcessMonitorRecord {
                    mt_id: self.id,
                    cpu_usage_bits: 0,
                    memory_usage: 0,
                    pid: 0,
                    running: false,
                },
            ),
        );
    }

    /// Looks at the watched process.
    fn watch(
        &mut self,
        target: &mut MonitorTarget,
        sampler: &ProcessSampler,
        statuses: &mut Vec<StatusSignal>,
    ) -> (res: ProgramAction)
        requires
            addressed(old(statuses)@, old(self).id),
        ensures
            addressed(final(statuses)@, old(self).id),
            final(self).same_program(*old(self)),
            *final(target) == (MonitorTarget {
                performance_records: final(target).performance_records,
                ..*old(target)
            }),
            view_of(*final(self), *final(target), final(statuses)@, res) == old(self).watched(
                sampler.table@,
                view_of(*old(self), *old(target), old(statuses)@, ProgramAction::End),
            ),
    {
        match self.pid_running {
            None => {
                self.phase = ProgramPhase::Searching;
                ProgramAction::Search
            },
            Some(pid) => {
                if sampler.check_alive(pid) {
                    self.phase = ProgramPhase::Measuring;
                    return ProgramAction::Measure(pid);
                }
                match sampler.check_for_handover(pid, &self.program_name) {
                    Some(next) => {
                        self.pid_running = Some(next);
                        self.phase = ProgramPhase::Turning;
                        ProgramAction::Again
                    },
                    None => {
                        self.pid_running = None;
                        self.show_idle(target);
                        self.tell(statuses, "refresh", "".to_string());
                        self.phase = ProgramPhase::Turning;
                        ProgramAction::Pause
                    },
                }
            },
        }
    }

    /// Deals with a program that the user stopped.
    fn after_stop(
        &mut self,
        target: &mut MonitorTarget,
        sampler: &ProcessSampler,
        statuses: &mut Vec<StatusSignal>,
    ) -> (res: ProgramAction)
        requires
            addressed(old(statuses)@, old(self).id),
        ensures
            addressed(final(statuses)@, old(self).id),
            final(self).same_program(*old(self)),
            *final(target) == (MonitorTarget {
                performance_records: final(target).performance_records,
                ..*old(target)
            }),
            view_of(*final(self), *final(target), final(statuses)@, res) == old(self).stopped(
                sampler.table@,
                view_of(*old(self), *old(target), old(statuses)@, ProgramAction::End),
            ),
    {
        self.show_idle(target);
        let mut message = self.shown_alias.clone();
        message.append(" 已停止运行");
        self.tell(statuses, "stop", message);
        self.watch(target, sampler, statuses)
    }

    /// Deals with a program that the user started.
    fn after_start(
        &mut self,
        target: &mut MonitorTarget,
        sampler: &ProcessSampler,
        statuses: &mut Vec<StatusSignal>,
    ) -> (res: ProgramAction)
        requires
            addressed(old(statuses)@, old(self).id),
        ensures
            addressed(final(statuses)@, old(self).id),
            final(self).same_program(*old(self)),
            *final(target) == (MonitorTarget {
                performance_records: final(target).performance_records,
                ..*old(target)
            }),
            view_of(*final(self), *final(target), final(statuses)@, res) == old(self).started(
                sampler.table@,
                view_of(*old(self), *old(target), old(statuses)@, ProgramAction::End),
            ),
    {
        let mut message = self.shown_alias.clone();
        message.append(" 已启动");
        self.tell(statuses, "start", message);
        self.temp_stop = false;
        self.watch(target, sampler, statuses)
    }

    /// Begins a round.
    fn turn(
        &mut self,
        target: &mut MonitorTarget,
        sampler: &ProcessSampler,
        statuses: &mut Vec<StatusSignal>,
    ) -> (res: ProgramAction)
        requires
            addressed(old(statuses)@, old(self).id),
        ensures
            addressed(final(statuses)@, old(self).id),
            final(self).same_program(*old(self)),
            *final(target) == (MonitorTarget {
                performance_records: final(target).performance_records,
                control_signal: final(target).control_signal,
                ..*old(target)
            }),
            view_of(*final(self), *final(target), final(statuses)@, res) == old(self).turned(
                sampler.table@,
                old(target).monitor_enabled,
                view_of(*old(self), *old(target), old(statuses)@, ProgramAction::End),
            ),
    {
        if !target.monitor_enabled {
            return match self.pid_running {
                Some(pid) => {
                    self.phase = ProgramPhase::Closing;
                    ProgramAction::Kill(pid)
                },
                None => {
                    self.phase = ProgramPhase::Ended;
                    ProgramAction::End
                },
            };
        }
        let signal = target.take_signal();
        if signal == "stop".to_string() {
            self.temp_stop = true;
            let watched = self.pid_running;
            self.pid_running = None;
            if let Some(pid) = watched {
                if sampler.check_alive(pid) {
                    self.phase = ProgramPhase::Stopping;
                    return ProgramAction::Kill(pid);
                }
            }
            self.after_stop(target, sampler, statuses)
        } else if signal == "start".to_string() {
            if self.pid_running.is_none() {
                self.phase = ProgramPhase::Starting;
                return ProgramAction::Start;
            }
            self.after_start(target, sampler, statuses)
        } else {
            self.watch(target, sampler, statuses)
        }
    }

    /// Takes in the answer to what the watch asked for.
    pub fn step(
        &mut self,
        target: &mut MonitorTarget,
        sampler: &ProcessSampler,
        event: ProgramEvent,
    ) -> (res: ProgramStep)
        requires
            old(self).well_formed(),
            answers(old(self).phase, event),
        ensures
            addressed(res.statuses@, old(self).id),
            final(self).same_program(*old(self)),
            *final(target) == (MonitorTarget {
                performance_records: final(target).performance_records,
                control_signal: final(target).control_signal,
                ..*old(target)
            }),
            view_of(*final(self), *final(target), res.statuses@, res.action) == old(self).answered(
                sampler.table@,
                old(target).monitor_enabled,
                view_of(*old(self), *old(target), Seq::empty(), ProgramAction::End),
                event,
            ),
            final(self).well_formed(),
    {
        let mut statuses: Vec<StatusSignal> = Vec::new();
        assert(told(statuses@) =~= told(Seq::empty()));
        let action = match (self.phase, event) {
            (ProgramPhase::Checking, ProgramEvent::PathChecked { exists, directory }) => {
                if exists && !directory {
                    self.tell(&mut statuses, "enable", "监控任务启动成功:".to_string());
                    self.turn(target, sampler, &mut statuses)
                } else {
                    let mut message = "程序路径不存在: ".to_string();
                    message.append(quoted_path(&self.path).as_str());
                    self.tell(&mut statuses, "error", message);
                    self.phase = ProgramPhase::Ended;
                    ProgramAction::End
                }
            },
            (ProgramPhase::Turning, _) => self.turn(target, sampler, &mut statuses),
            (ProgramPhase::Stopping, _) => self.after_stop(target, sampler, &mut statuses),
            (ProgramPhase::Starting, ProgramEvent::Started(Ok(pid))) => {
                self.pid_running = Some(pid);
                target.push_record(
                    MonitorRecord::LocalProcess(
                        LocalProcessMonitorRecord {
                            mt_id: self.id,
                            cpu_usage_bits: 0,
                            memory_usage: 0,
                            pid: 0,
                            running: true,
                        },
                    ),
                );
                self.phase = ProgramPhase::Refreshing;
                ProgramAction::Refresh
            },
            (ProgramPhase::Starting, ProgramEvent::Started(Err(e))) => {
                let mut message = "应用启动失败: ".to_string();
                message.append(e.as_str());
                self.tell(&mut statuses, "error", message);
                self.phase = ProgramPhase::Ended;
                ProgramAction::End
            },
            (ProgramPhase::Refreshing, _) => self.after_start(target, sampler, &mut statuses),
            (ProgramPhase::Measuring, ProgramEvent::Measured { cpu_usage_bits, memory }) => {
                if let Some(pid) = self.pid_running {
                    target.replace_record(
                        MonitorRecord::LocalProcess(
                            LocalProcessMonitorRecord {
                                mt_id: self.id,
                                cpu_usage_bits,
                                memory_usage: memory,
                                pid,
                                running: true,
                            },
                        ),
                    );
                }
                self.phase = ProgramPhase::Turning;
                ProgramAction::Pause
            },
            (ProgramPhase::Searching, ProgramEvent::Found(pid)) => {
                self.pid_running = pid;
                self.phase = if pid.is_none() && self.auto_restart && !self.temp_stop {
                    ProgramPhase::Resting
                } else {
                    ProgramPhase::Turning
                };
                ProgramAction::Pause
            },
            (ProgramPhase::Resting, _) => {
                self.phase = ProgramPhase::Restarting;
                ProgramAction::Start
            },
            (ProgramPhase::Restarting, ProgramEvent::Started(res)) => {
                self.pid_running = match res {
                    Ok(pid) => Some(pid),
                    Err(_) => None,
                };
                self.phase = ProgramPhase::Turning;
                ProgramAction::Pause
            },
            (_, _) => {
                self.phase = ProgramPhase::Ended;
                ProgramAction::End
            },
        };
        ProgramStep { statuses, action }
    }
}

/// What the watch over a program does in answer to an event: first it tells the
/// user interface, then it asks for something.
#[derive(Debug)]
pub struct ProgramStep {
    pub statuses: Vec<StatusSignal>,
    pub action: ProgramAction,
}

/// Only the process that is watched is ever closed down.
pub proof fn law_only_the_watched_is_closed_down(
    monitor: ProgramMonitor,
    procs: Seq<ProcessInfo>,
    enabled: bool,
    before: ProgramView,
    event: ProgramEvent,
)
    requires
        monitor.sound(before),
        answers(before.phase, event),
    ensures
        monitor.answered(procs, enabled, before, event).action matches ProgramAction::Kill(pid)
            ==> before.pid == Some(pid),
{
}

/// The watch stays in a sound state.
pub proof fn law_watch_stays_sound(
    monitor: ProgramMonitor,
    procs: Seq<ProcessInfo>,
    enabled: bool,
    before: ProgramView,
    event: ProgramEvent,
)
    requires
        monitor.sound(before),
        answers(before.phase, event),
    ensures
        monitor.sound(monitor.answered(procs, enabled, before, event)),
{
}

/// A program that the user stopped is started only when the user asks for it,
/// and stays marked as stopped until it was started.
pub proof fn law_stopped_stays_stopped(
    monitor: ProgramMonitor,
    procs: Seq<ProcessInfo>,
    enabled: bool,
    before: ProgramView,
    event: ProgramEvent,
)
    requires
        monitor.sound(before),
        answers(before.phase, event),
        before.temp_stop,
    ensures
        ({
            let after = monitor.answered(procs, enabled, before, event);
            &&& after.action == ProgramAction::Start ==> before.signal == "start"@
            &&& !after.temp_stop ==> before.phase == ProgramPhase::Refreshing || before.signal
                == "start"@
        }),
{
}

/// What comes in from outside between two answers of the watch over a program.
pub struct ProgramInput {
    /// The processes that run.
    pub procs: Seq<ProcessInfo>,
    /// Whether the target is switched on.
    pub enabled: bool,
    /// The control signal that is pending.
    pub signal: Seq<char>,
    /// The answer to what the watch asked for.
    pub event: ProgramEvent,
}

impl ProgramMonitor {
    /// The state after a number of answers.
    pub open spec fn answered_all(self, v: ProgramView, inputs: Seq<ProgramInput>) -> ProgramView
        decreases inputs.len(),
    {
        if inputs.len() == 0 {
            v
        } else {
            let before = self.answered_all(v, inputs.drop_last());
            let input = inputs.last();
            self.answered(
                input.procs,
                input.enabled,
                ProgramView { signal: input.signal, told: Seq::empty(), ..before },
                input.event,
            )
        }
    }

    /// Whether each answer is the one that the watch waits for.
    pub open spec fn answers_all(self, v: ProgramView, inputs: Seq<ProgramInput>) -> bool
        decreases inputs.len(),
    {
        inputs.len() > 0 ==> self.answers_all(v, inputs.drop_last()) && answers(
            self.answered_all(v, inputs.drop_last()).phase,
            inputs.last().event,
        )
    }
}

/// Once the user has stopped a program it is not started, whatever happens,
/// until the user asks for it.
pub proof fn law_stopped_until_asked_for(
    monitor: ProgramMonitor,
    before: ProgramView,
    inputs: Seq<ProgramInput>,
)
    requires
        monitor.sound(before),
        before.temp_stop,
        before.phase != ProgramPhase::Starting,
        before.phase != ProgramPhase::Refreshing,
        monitor.answers_all(before, inputs),
        forall|i: int| 0 <= i < inputs.len() ==> (#[trigger] inputs[i]).signal != "start"@,
    ensures
        ({
            let after = monitor.answered_all(before, inputs);
            &&& monitor.sound(after)
            &&& after.temp_stop
            &&& after.phase != ProgramPhase::Starting
            &&& after.phase != ProgramPhase::Refreshing
            &&& inputs.len() > 0 ==> after.action != ProgramAction::Start
        }),
    decreases inputs.len(),
{
    if inputs.len() > 0 {
        let earlier = inputs.drop_last();
        let input = inputs.last();
        assert(inputs[inputs.len() - 1].signal != "start"@);
        assert forall|i: int| 0 <= i < earlier.len() implies (#[trigger] earlier[i]).signal
            != "start"@ by {
            assert(earlier[i] == inputs[i]);
        }
        law_stopped_until_asked_for(monitor, before, earlier);
        let between = monitor.answered_all(before, earlier);
        let heard = ProgramView { signal: input.signal, told: Seq::empty(), ..between };
        law_watch_stays_sound(monitor, input.procs, input.enabled, heard, input.event);
        law_stopped_stays_stopped(monitor, input.procs, input.enabled, heard, input.event);
    }
}

/// A program is started only when the user asks for it, or by itself if it may
/// be and the user has not stopped it.
pub proof fn law_start_has_a_reason(
    monitor: ProgramMonitor,
    procs: Seq<ProcessInfo>,
    enabled: bool,
    before: ProgramView,
    event: ProgramEvent,
)
    requires
        monitor.sound(before),
        answers(before.phase, event),
        monitor.answered(procs, enabled, before, event).action == ProgramAction::Start,
    ensures
        before.signal == "start"@ || (monitor.auto_restart && !before.temp_stop),
        before.pid is None,
{
}

/// Once the target is disabled the next round closes down the watched process,
/// if there is one, and with that the watch ends.
pub proof fn law_disabled_watch_ends(
    monitor: ProgramMonitor,
    procs: Seq<ProcessInfo>,
    before: ProgramView,
)
    requires
        before.phase == ProgramPhase::Turning,
    ensures
        ({
            let after = monitor.answered(procs, false, before, ProgramEvent::Resumed);
            match before.pid {
                Some(pid) => after.action == ProgramAction::Kill(pid) && monitor.answered(
                    procs,
                    false,
                    after,
                    ProgramEvent::Killed,
                ).action == ProgramAction::End,
                None => after.action == ProgramAction::End,
            }
        }),
{
}

/// There is always a record to show.
pub proof fn law_watch_keeps_a_record(
    monitor: ProgramMonitor,
    procs: Seq<ProcessInfo>,
    enabled: bool,
    before: ProgramView,
    event: ProgramEvent,
)
    requires
        before.records.len() > 0,
    ensures
        monitor.answered(procs, enabled, before, event).records.len() >= before.records.len(),
{
}

/// A process without a window of its own.
pub const CREATE_NO_WINDOW: u32 = 0x0800_0000;

/// A process in a console window of its own.
pub const CREATE_NEW_CONSOLE: u32 = 0x10;

/// A process that heads a group of its own.
pub const CREATE_NEW_PROCESS_GROUP: u32 = 0x200;

/// How to start a program.
#[derive(Debug)]
pub struct LaunchPlan {
    /// The program.
    pub program: String,
    /// The directory to run it in.
    pub directory: String,
    /// How Windows creates the process.
    pub creation_flags: u32,
    /// Whether what it writes to its output and to its error output is read.
    pub piped: bool,
    /// Whether the process ends with the watch.
    pub in_job: bool,
}

/// Whether a plan starts a program in a directory: without a window, read and
/// bound to the watch if its output is captured, in a console of its own
/// otherwise.
pub open spec fn starts_in(
    plan: LaunchPlan,
    program: Seq<char>,
    directory: Seq<char>,
    capture_output: bool,
) -> bool {
    &&& plan.program@ == program
    &&& plan.directory@ == directory
    &&& plan.piped == capture_output
    &&& plan.in_job == capture_output
    &&& plan.creation_flags == if capture_output {
        CREATE_NO_WINDOW as int
    } else {
        CREATE_NEW_CONSOLE + CREATE_NEW_PROCESS_GROUP
    }
}

/// The directory to run a program in, given the one that holds it: that one, or
/// the current one if it is not known.
pub open spec fn working_directory(parent: Option<Seq<char>>) -> Seq<char> {
    match parent {
        Some(dir) => dir,
        None => "."@,
    }
}

/// How to start a program, given the directory that holds it.
pub fn launch_plan(
    program_path: &str,
    parent: Option<String>,
    capture_output: bool,
) -> (res: LaunchPlan)
    ensures
        starts_in(res, program_path@, working_directory(text_of(parent)), capture_output),
{
    let creation_flags: u32 = if capture_output {
        CREATE_NO_WINDOW
    } else {
        assert(0x10u32 | 0x200u32 == 0x210u32) by (bit_vector);
        CREATE_NEW_CONSOLE | CREATE_NEW_PROCESS_GROUP
    };
    LaunchPlan {
        program: program_path.to_string(),
        directory: match parent {
            Some(dir) => dir,
            None => ".".to_string(),
        },
        creation_flags,
        piped: capture_output,
        in_job: capture_output,
    }
}

/// How to start a program: in the directory that holds it.
pub fn start_process(program_path: &str, capture_output: bool) -> (res: LaunchPlan)
    ensures
        exists|parent: Option<Seq<char>>| #[trigger]
            is_directory(program_path@, parent) && starts_in(
                res,
                program_path@,
                working_directory(parent),
                capture_output,
            ),
{
    let dir = parent(program_path);
    assert(is_directory(program_path@, text_of(dir)));
    launch_plan(program_path, dir, capture_output)
}

/// How long processes are given to end by themselves, in milliseconds.
pub const KILL_TIMEOUT_MS: u64 = 3000;

/// The pause between two looks at them, in milliseconds.
pub const KILL_POLL_MS: u64 = 300;

/// The numbers among `pids` of processes that run.
pub open spec fn alive(pids: Seq<u32>, procs: Seq<ProcessInfo>) -> Seq<u32>
    decreases pids.len(),
{
    if pids.len() == 0 {
        Seq::empty()
    } else if lookup(procs, pids.last()) is Some {
        alive(pids.drop_last(), procs).push(pids.last())
    } else {
        alive(pids.drop_last(), procs)
    }
}

/// What to do about processes that are to end.
#[derive(Debug)]
pub enum KillStep {
    /// They have ended.
    Done,
    /// Look again after a pause.
    Wait,
    /// End these by force.
    Force(Vec<u32>),
}

/// Whether `step` is what to do about processes some time after they were asked to
/// end.
pub open spec fn is_kill_step(
    step: KillStep,
    pids: Seq<u32>,
    elapsed_ms: u64,
    procs: Seq<ProcessInfo>,
) -> bool {
    match step {
        KillStep::Done => elapsed_ms < KILL_TIMEOUT_MS && alive(pids, procs).len() == 0,
        KillStep::Wait => elapsed_ms < KILL_TIMEOUT_MS && alive(pids, procs).len() > 0,
        KillStep::Force(left) => elapsed_ms >= KILL_TIMEOUT_MS && left@ == alive(pids, procs),
    }
}

/// The processes that are to end with one of them.
#[derive(Debug)]
pub struct KillPlan {
    pub pids: Vec<u32>,
}

/// Whether a plan ends a process with all that descend from it; there is none if it
/// does not run.
pub open spec fn is_kill_plan(plan: Option<KillPlan>, pid: u32, procs: Seq<ProcessInfo>) -> bool {
    match plan {
        Some(plan) => lookup(procs, pid) is Some && plan.pids@ == family(procs, pid),
        None => lookup(procs, pid) is None,
    }
}

/// The processes that are to end with a process: all that descend from it. There
/// is nothing to do if it does not run.
pub fn kill_process(pid: u32, table: &ProcessTable) -> (res: Option<KillPlan>)
    requires
        lookup(table@, pid) is Some ==> !own_ancestor(table@, pid),
    ensures
        is_kill_plan(res, pid, table@),
{
    if !table.contains(pid) {
        return None;
    }
    Some(KillPlan { pids: table.family(pid) })
}

impl KillPlan {
    /// Those of the processes that run.
    fn survivors(&self, table: &ProcessTable) -> (res: Vec<u32>)
        ensures
            res@ == alive(self.pids@, table@),
    {
        let mut out: Vec<u32> = Vec::new();
        let mut i: usize = 0;
        while i < self.pids.len()
            invariant
                i <= self.pids.len(),
                out@ == alive(self.pids@.take(i as int), table@),
            decreases self.pids.len() - i,
        {
            assert(self.pids@.take(i + 1).drop_last() =~= self.pids@.take(i as int));
            if table.contains(self.pids[i]) {
                out.push(self.pids[i]);
            }
            i += 1;
        }
        assert(self.pids@.take(i as int) =~= self.pids@);
        out
    }

    /// What to do some time after the processes were asked to end, given which
    /// ones run now.
    pub fn step(&self, elapsed_ms: u64, table: &ProcessTable) -> (res: KillStep)
        ensures
            is_kill_step(res, self.pids@, elapsed_ms, table@),
    {
        let survivors = self.survivors(table);
        if elapsed_ms >= KILL_TIMEOUT_MS {
            KillStep::Force(survivors)
        } else if survivors.len() == 0 {
            KillStep::Done
        } else {
            KillStep::Wait
        }
    }
}

/// Only processes that run and are to end are ended by force.
pub proof fn law_force_spares_others(pids: Seq<u32>, procs: Seq<ProcessInfo>, pid: u32)
    ensures
        alive(pids, procs).contains(pid) <==> pids.contains(pid) && lookup(procs, pid) is Some,
    decreases pids.len(),
{
    if pids.len() > 0 {
        let before = pids.drop_last();
        law_force_spares_others(before, procs, pid);
        let known = alive(before, procs);
        if before.contains(pid) {
            assert(pids[before.index_of(pid)] == pid);
        }
        if pids.contains(pid) && pid != pids.last() {
            assert(before[pids.index_of(pid)] == pid);
        }
        if lookup(procs, pids.last()) is Some {
            assert(known.push(pids.last())[known.len() as int] == pids.last());
            if known.contains(pid) {
                assert(known.push(pids.last())[known.index_of(pid)] == pid);
            }
            if known.push(pids.last()).contains(pid) {
                let i = known.push(pids.last()).index_of(pid);
                if i < known.len() {
                    assert(known[i] == pid);
                }
            }
        }
        if pid == pids.last() {
            assert(pids[pids.len() - 1] == pid);
        }
    }
}

/// The record of a program of which nothing is measured.
pub open spec fn empty_record(id: usize, running: bool) -> MonitorRecord {
    MonitorRecord::LocalProcess(
        LocalProcessMonitorRecord {
            mt_id: id,
            cpu_usage_bits: 0,
            memory_usage: 0,
            pid: 0,
            running,
        },
    )
}

/// Whether `after` are some records once a new one has taken the place of the
/// oldest, in front.
pub open spec fn makes_room(
    before: Seq<MonitorRecord>,
    after: Seq<MonitorRecord>,
    record: MonitorRecord,
) -> bool {
    &&& after.len() == if before.len() == 0 {
        1
    } else {
        before.len()
    }
    &&& after[0] == record
    &&& forall|i: int| 0 < i < after.len() ==> #[trigger] after[i] == before[i - 1]
}

/// A program that has crashed is started again by itself, unless the user has
/// stopped it: when no process is found, the watch pauses and then starts the
/// program. None of the other settings matters.
pub proof fn law_crashed_program_is_started_again(
    monitor: ProgramMonitor,
    procs: Seq<ProcessInfo>,
    later: Seq<ProcessInfo>,
    enabled: bool,
    still: bool,
    signal: Seq<char>,
    before: ProgramView,
)
    requires
        before.phase == ProgramPhase::Searching,
        monitor.auto_restart,
        !before.temp_stop,
    ensures
        ({
            let pausing = monitor.answered(procs, enabled, before, ProgramEvent::Found(None));
            let heard = ProgramView { signal, ..pausing };
            let starting = monitor.answered(later, still, heard, ProgramEvent::Resumed);
            &&& pausing.action == ProgramAction::Pause
            &&& answers(pausing.phase, ProgramEvent::Resumed)
            &&& pausing.pid is None
            &&& starting.action == ProgramAction::Start
            &&& forall|res: Result<u32, String>| #[trigger]
                answers(starting.phase, ProgramEvent::Started(res))
            &&& pausing.records == before.records
            &&& starting.records == before.records
            &&& pausing.told == before.told
            &&& starting.told == before.told
        }),
{
}

/// What was started by itself is watched from then on; if it could not be started
/// the watch goes on, and will look for the program again.
pub proof fn law_restarted_program_is_watched(
    monitor: ProgramMonitor,
    procs: Seq<ProcessInfo>,
    enabled: bool,
    before: ProgramView,
    res: Result<u32, String>,
)
    requires
        before.phase == ProgramPhase::Restarting,
    ensures
        monitor.answered(procs, enabled, before, ProgramEvent::Started(res)) == (ProgramView {
            phase: ProgramPhase::Turning,
            action: ProgramAction::Pause,
            pid: match res {
                Ok(pid) => Some(pid),
                Err(_) => None,
            },
            ..before
        }),
{
}

/// A program that is not to be started by itself, or that the user has stopped, is
/// only looked for again.
pub proof fn law_program_may_stay_away(
    monitor: ProgramMonitor,
    procs: Seq<ProcessInfo>,
    enabled: bool,
    before: ProgramView,
)
    requires
        before.phase == ProgramPhase::Searching,
        !monitor.auto_restart || before.temp_stop,
    ensures
        monitor.answered(procs, enabled, before, ProgramEvent::Found(None)) == (ProgramView {
            phase: ProgramPhase::Turning,
            action: ProgramAction::Pause,
            pid: None,
            ..before
        }),
{
}

/// A process that is found is watched from the next round on.
pub proof fn law_found_process_is_watched(
    monitor: ProgramMonitor,
    procs: Seq<ProcessInfo>,
    enabled: bool,
    before: ProgramView,
    pid: u32,
)
    requires
        before.phase == ProgramPhase::Searching,
    ensures
        monitor.answered(procs, enabled, before, ProgramEvent::Found(Some(pid))) == (ProgramView {
            phase: ProgramPhase::Turning,
            action: ProgramAction::Pause,
            pid: Some(pid),
            ..before
        }),
{
}

/// Whether a round begins in which nothing was asked for.
pub open spec fn goes_its_way(before: ProgramView, enabled: bool) -> bool {
    before.phase == ProgramPhase::Turning && enabled && before.signal != "stop"@ && before.signal
        != "start"@
}

/// In every round a program that runs is measured, and one that is not watched is
/// looked for.
pub proof fn law_running_program_is_measured(
    monitor: ProgramMonitor,
    procs: Seq<ProcessInfo>,
    before: ProgramView,
)
    requires
        goes_its_way(before, true),
    ensures
        before.pid is Some && lookup(procs, before.pid->0) is Some ==> monitor.answered(
            procs,
            true,
            before,
            ProgramEvent::Resumed,
        ) == (ProgramView {
            phase: ProgramPhase::Measuring,
            action: ProgramAction::Measure(before.pid->0),
            signal: Seq::empty(),
            ..before
        }),
        before.pid is None ==> monitor.answered(procs, true, before, ProgramEvent::Resumed) == (
        ProgramView {
            phase: ProgramPhase::Searching,
            action: ProgramAction::Search,
            signal: Seq::empty(),
            ..before
        }),
{
}

/// What was measured is shown as the latest record, with the number of the process
/// that is watched, and the next round follows after a pause.
pub proof fn law_measurement_is_shown(
    monitor: ProgramMonitor,
    procs: Seq<ProcessInfo>,
    enabled: bool,
    before: ProgramView,
    cpu_usage_bits: u64,
    memory: u64,
)
    requires
        before.phase == ProgramPhase::Measuring,
        before.pid is Some,
    ensures
        ({
            let after = monitor.answered(
                procs,
                enabled,
                before,
                ProgramEvent::Measured { cpu_usage_bits, memory },
            );
            &&& makes_room(
                before.records,
                after.records,
                MonitorRecord::LocalProcess(
                    LocalProcessMonitorRecord {
                        mt_id: monitor.id,
                        cpu_usage_bits,
                        memory_usage: memory,
                        pid: before.pid->0,
                        running: true,
                    },
                ),
            )
            &&& after == (ProgramView {
                phase: ProgramPhase::Turning,
                action: ProgramAction::Pause,
                records: after.records,
                ..before
            })
        }),
{
}

/// When a process has ended, a child of it with the name of the program takes its
/// place at once.
pub proof fn law_hand_over_is_followed(
    monitor: ProgramMonitor,
    procs: Seq<ProcessInfo>,
    before: ProgramView,
    next: u32,
)
    requires
        goes_its_way(before, true),
        before.pid is Some,
        lookup(procs, before.pid->0) is None,
        successor(procs, before.pid->0, monitor.program_name@) == Some(next),
    ensures
        monitor.answered(procs, true, before, ProgramEvent::Resumed) == (ProgramView {
            phase: ProgramPhase::Turning,
            action: ProgramAction::Again,
            pid: Some(next),
            signal: Seq::empty(),
            ..before
        }),
{
}

/// When a process has ended and none takes its place, the program is shown not to
/// run, the user interface is told, and the program is looked for in the next round.
pub proof fn law_lost_program_is_shown_and_looked_for(
    monitor: ProgramMonitor,
    procs: Seq<ProcessInfo>,
    later: Seq<ProcessInfo>,
    before: ProgramView,
    signal: Seq<char>,
)
    requires
        goes_its_way(before, true),
        before.pid is Some,
        lookup(procs, before.pid->0) is None,
        successor(procs, before.pid->0, monitor.program_name@) is None,
        signal != "stop"@,
        signal != "start"@,
    ensures
        ({
            let after = monitor.answered(procs, true, before, ProgramEvent::Resumed);
            let heard = ProgramView { signal, ..after };
            &&& makes_room(before.records, after.records, empty_record(monitor.id, false))
            &&& after == (ProgramView {
                phase: ProgramPhase::Turning,
                action: ProgramAction::Pause,
                pid: None,
                signal: Seq::empty(),
                records: after.records,
                told: before.told.push(("refresh"@, ""@)),
                ..before
            })
            &&& monitor.answered(later, true, heard, ProgramEvent::Resumed).action
                == ProgramAction::Search
        }),
{
}

/// A program that the user stops is closed down if it runs. Once it is, it is shown
/// not to run and the user is told; it stays marked as stopped, and is only looked
/// for.
pub proof fn law_stop_closes_the_program_down(
    monitor: ProgramMonitor,
    procs: Seq<ProcessInfo>,
    later: Seq<ProcessInfo>,
    enabled: bool,
    before: ProgramView,
    pid: u32,
)
    requires
        before.phase == ProgramPhase::Turning,
        before.signal == "stop"@,
        before.pid == Some(pid),
        lookup(procs, pid) is Some,
    ensures
        ({
            let closing = monitor.answered(procs, true, before, ProgramEvent::Resumed);
            let after = monitor.answered(later, enabled, closing, ProgramEvent::Killed);
            &&& closing == (ProgramView {
                phase: ProgramPhase::Stopping,
                action: ProgramAction::Kill(pid),
                pid: None,
                temp_stop: true,
                signal: Seq::empty(),
                ..before
            })
            &&& answers(closing.phase, ProgramEvent::Killed)
            &&& makes_room(before.records, after.records, empty_record(monitor.id, false))
            &&& after == (ProgramView {
                phase: ProgramPhase::Searching,
                action: ProgramAction::Search,
                pid: None,
                temp_stop: true,
                signal: Seq::empty(),
                records: after.records,
                told: before.told.push(("stop"@, monitor.shown_alias@ + " 已停止运行"@)),
                ..before
            })
        }),
{
}

/// A program that the user stops and that does not run is shown not to run, and
/// stays marked as stopped.
pub proof fn law_stop_of_an_ended_program(
    monitor: ProgramMonitor,
    procs: Seq<ProcessInfo>,
    before: ProgramView,
)
    requires
        before.phase == ProgramPhase::Turning,
        before.signal == "stop"@,
        before.pid matches Some(pid) ==> lookup(procs, pid) is None,
    ensures
        ({
            let after = monitor.answered(procs, true, before, ProgramEvent::Resumed);
            &&& makes_room(before.records, after.records, empty_record(monitor.id, false))
            &&& after == (ProgramView {
                phase: ProgramPhase::Searching,
                action: ProgramAction::Search,
                pid: None,
                temp_stop: true,
                signal: Seq::empty(),
                records: after.records,
                told: before.told.push(("stop"@, monitor.shown_alias@ + " 已停止运行"@)),
                ..before
            })
        }),
{
}

/// A program that the user starts and that does not run is started. Once it is, it
/// is shown to run and is watched, the processes are looked at anew, the user is
/// told, and it is no longer marked as stopped.
pub proof fn law_start_starts_the_program(
    monitor: ProgramMonitor,
    procs: Seq<ProcessInfo>,
    later: Seq<ProcessInfo>,
    latest: Seq<ProcessInfo>,
    enabled: bool,
    still: bool,
    before: ProgramView,
    pid: u32,
)
    requires
        before.phase == ProgramPhase::Turning,
        before.signal == "start"@,
        before.pid is None,
        lookup(latest, pid) is Some,
    ensures
        ({
            let asked = monitor.answered(procs, true, before, ProgramEvent::Resumed);
            let begun = monitor.answered(later, enabled, asked, ProgramEvent::Started(Ok(pid)));
            let after = monitor.answered(latest, still, begun, ProgramEvent::Refreshed);
            &&& asked == (ProgramView {
                phase: ProgramPhase::Starting,
                action: ProgramAction::Start,
                signal: Seq::empty(),
                ..before
            })
            &&& begun == (ProgramView {
                phase: ProgramPhase::Refreshing,
                action: ProgramAction::Refresh,
                pid: Some(pid),
                signal: Seq::empty(),
                records: seq![empty_record(monitor.id, true)] + before.records,
                ..before
            })
            &&& after == (ProgramView {
                phase: ProgramPhase::Measuring,
                action: ProgramAction::Measure(pid),
                temp_stop: false,
                told: before.told.push(("start"@, monitor.shown_alias@ + " 已启动"@)),
                ..begun
            })
        }),
{
    lemma_signals_differ();
}

/// A program that the user starts while it runs goes on: it is measured, the user
/// is told, and it is no longer marked as stopped.
pub proof fn law_start_of_a_running_program(
    monitor: ProgramMonitor,
    procs: Seq<ProcessInfo>,
    before: ProgramView,
    pid: u32,
)
    requires
        before.phase == ProgramPhase::Turning,
        before.signal == "start"@,
        before.pid == Some(pid),
        lookup(procs, pid) is Some,
    ensures
        monitor.answered(procs, true, before, ProgramEvent::Resumed) == (ProgramView {
            phase: ProgramPhase::Measuring,
            action: ProgramAction::Measure(pid),
            temp_stop: false,
            signal: Seq::empty(),
            told: before.told.push(("start"@, monitor.shown_alias@ + " 已启动"@)),
            ..before
        }),
{
    lemma_signals_differ();
}

/// What is told and forgotten after a start that the user asked for does not depend
/// on whether the process is still there: the rest is as in any other round.
pub proof fn law_round_after_a_start(
    monitor: ProgramMonitor,
    procs: Seq<ProcessInfo>,
    enabled: bool,
    before: ProgramView,
)
    requires
        before.phase == ProgramPhase::Refreshing || (before.phase == ProgramPhase::Turning
            && enabled && before.signal == "start"@ && before.pid is Some),
    ensures
        ({
            let event = if before.phase == ProgramPhase::Refreshing {
                ProgramEvent::Refreshed
            } else {
                ProgramEvent::Resumed
            };
            let quiet = ProgramView {
                phase: ProgramPhase::Turning,
                temp_stop: false,
                signal: Seq::empty(),
                told: before.told.push(("start"@, monitor.shown_alias@ + " 已启动"@)),
                ..before
            };
            let after = monitor.answered(procs, enabled, before, event);
            after == (ProgramView {
                signal: after.signal,
                ..monitor.answered(procs, true, quiet, ProgramEvent::Resumed)
            })
        }),
{
    lemma_signals_differ();
}

proof fn lemma_signals_differ()
    ensures
        "start"@ != "stop"@,
        Seq::<char>::empty() != "start"@,
        Seq::<char>::empty() != "stop"@,
{
    reveal_strlit("start");
    reveal_strlit("stop");
    assert("start"@.len() == 5 && "stop"@.len() == 4 && Seq::<char>::empty().len() == 0);
}

/// If a program that the user starts cannot be started, the user is told why and
/// the watch ends.
pub proof fn law_failed_start_ends_the_watch(
    monitor: ProgramMonitor,
    procs: Seq<ProcessInfo>,
    enabled: bool,
    before: ProgramView,
    e: String,
)
    requires
        before.phase == ProgramPhase::Starting,
    ensures
        monitor.answered(procs, enabled, before, ProgramEvent::Started(Err(e))) == (ProgramView {
            phase: ProgramPhase::Ended,
            action: ProgramAction::End,
            told: before.told.push(("error"@, "应用启动失败: "@ + e@)),
            ..before
        }),
{
}

/// A program that is there is watched: the user is told, and the first round begins
/// at once. One that is not there, or is a directory, is not: the user is told its
/// path, and the watch ends.
pub proof fn law_watch_begins_if_the_program_is_there(
    monitor: ProgramMonitor,
    procs: Seq<ProcessInfo>,
    enabled: bool,
    before: ProgramView,
    exists: bool,
    directory: bool,
)
    requires
        before.phase == ProgramPhase::Checking,
    ensures
        ({
            let after = monitor.answered(
                procs,
                enabled,
                before,
                ProgramEvent::PathChecked { exists, directory },
            );
            if exists && !directory {
                after == monitor.answered(
                    procs,
                    enabled,
                    ProgramView {
                        phase: ProgramPhase::Turning,
                        told: before.told.push(("enable"@, "监控任务启动成功:"@)),
                        ..before
                    },
                    ProgramEvent::Resumed,
                )
            } else {
                after == (ProgramView {
                    phase: ProgramPhase::Ended,
                    action: ProgramAction::End,
                    told: before.told.push(
                        ("error"@, "程序路径不存在: "@ + path_debug_text(monitor.path@)),
                    ),
                    ..before
                })
            }
        }),
{
}

/// Once the target is disabled, the watched process is closed down and the watch
/// ends; without one it ends at once. Nothing is shown or told any more.
pub proof fn law_disabled_watch_closes_the_program_down(
    monitor: ProgramMonitor,
    procs: Seq<ProcessInfo>,
    later: Seq<ProcessInfo>,
    enabled: bool,
    before: ProgramView,
)
    requires
        before.phase == ProgramPhase::Turning,
    ensures
        ({
            let after = monitor.answered(procs, false, before, ProgramEvent::Resumed);
            let last = monitor.answered(later, enabled, after, ProgramEvent::Killed);
            match before.pid {
                Some(pid) => {
                    &&& after == (ProgramView {
                        phase: ProgramPhase::Closing,
                        action: ProgramAction::Kill(pid),
                        ..before
                    })
                    &&& answers(after.phase, ProgramEvent::Killed)
                    &&& last == (ProgramView {
                        phase: ProgramPhase::Ended,
                        action: ProgramAction::End,
                        ..before
                    })
                },
                None => after == (ProgramView {
                    phase: ProgramPhase::Ended,
                    action: ProgramAction::End,
                    ..before
                }),
            }
        }),
{
}

/// How the output of a program is treated has no influence on how it is watched,
/// and neither has anything else but its number, its names, its path and whether it
/// is started by itself.
pub proof fn law_other_settings_do_not_matter(
    monitor: ProgramMonitor,
    other: ProgramMonitor,
    procs: Seq<ProcessInfo>,
    enabled: bool,
    before: ProgramView,
    event: ProgramEvent,
)
    requires
        monitor.id == other.id,
        monitor.shown_alias@ == other.shown_alias@,
        monitor.path@ == other.path@,
        monitor.program_name@ == other.program_name@,
        monitor.auto_restart == other.auto_restart,
    ensures
        monitor.answered(procs, enabled, before, event) == other.answered(
            procs,
            enabled,
            before,
            event,
        ),
{
}

/// Whether a program is started by itself matters only where it was looked for and
/// not found.
pub proof fn law_automatic_start_matters_only_after_a_search(
    monitor: ProgramMonitor,
    other: ProgramMonitor,
    procs: Seq<ProcessInfo>,
    enabled: bool,
    before: ProgramView,
    event: ProgramEvent,
)
    requires
        other == (ProgramMonitor { auto_restart: other.auto_restart, ..monitor }),
        !(before.phase == ProgramPhase::Searching && event == ProgramEvent::Found(None)),
    ensures
        monitor.answered(procs, enabled, before, event) == other.answered(
            procs,
            enabled,
            before,
            event,
        ),
{
}

/// Each question of the watch has its answer, and no other answer is accepted.
pub proof fn law_each_phase_waits_for_its_answer(phase: ProgramPhase, event: ProgramEvent)
    ensures
        answers(phase, event) ==> phase != ProgramPhase::Ended,
        event is PathChecked ==> (answers(phase, event) <==> phase == ProgramPhase::Checking),
        event is Resumed ==> (answers(phase, event) <==> phase == ProgramPhase::Turning || phase
            == ProgramPhase::Resting),
        event is Killed ==> (answers(phase, event) <==> phase == ProgramPhase::Stopping || phase
            == ProgramPhase::Closing),
        event is Started ==> (answers(phase, event) <==> phase == ProgramPhase::Starting || phase
            == ProgramPhase::Restarting),
        event is Refreshed ==> (answers(phase, event) <==> phase == ProgramPhase::Refreshing),
        event is Measured ==> (answers(phase, event) <==> phase == ProgramPhase::Measuring),
        event is Found ==> (answers(phase, event) <==> phase == ProgramPhase::Searching),
{
}

/// A program is started without a window and in the job of the application if its
/// output is captured, and in a console of its own otherwise, always by its whole
/// path and in the given directory.
pub proof fn law_program_is_started_as_planned(
    plan: LaunchPlan,
    program: Seq<char>,
    parent: Option<Seq<char>>,
    capture_output: bool,
)
    requires
        starts_in(plan, program, working_directory(parent), capture_output),
    ensures
        plan.program@ == program,
        plan.piped == capture_output,
        plan.in_job == capture_output,
        capture_output ==> plan.creation_flags == 0x0800_0000,
        !capture_output ==> plan.creation_flags == 0x210,
        parent matches Some(dir) ==> plan.directory@ == dir,
        parent is None ==> plan.directory@ == "."@,
{
}

/// A program under a plain path runs in the directory that holds it, and is known
/// by the last name of the path, on every platform.
pub proof fn law_program_runs_where_it_stands(
    plan: LaunchPlan,
    dir: Seq<char>,
    name: Seq<char>,
    parent: Option<Seq<char>>,
    known_as: Seq<char>,
    capture_output: bool,
)
    requires
        is_plain_name(name, true),
        dir.len() > 0,
        dir.last() != '/',
        dir.last() != '\\',
        dir.last() != '.',
        !leads_twice(dir),
        !dir.contains(':'),
        is_directory(dir.push('/') + name, parent),
        starts_in(plan, dir.push('/') + name, working_directory(parent), capture_output),
        names_program(dir.push('/') + name, known_as),
    ensures
        plan.directory@ == dir,
        known_as == name,
{
    if dir.len() >= 2 {
        assert(dir.contains(dir[1]));
    }
    law_directory_and_name(dir, '/', name, false);
    law_directory_and_name(dir, '/', name, true);
    let path = dir.push('/') + name;
    assert(stands_in(path, parent, false) || stands_in(path, parent, true));
}

/// A program in the root runs there.
pub proof fn law_program_in_the_root(
    plan: LaunchPlan,
    name: Seq<char>,
    parent: Option<Seq<char>>,
    capture_output: bool,
)
    requires
        is_plain_name(name, true),
        is_directory(seq!['/'] + name, parent),
        starts_in(plan, seq!['/'] + name, working_directory(parent), capture_output),
    ensures
        plan.directory@ == seq!['/'],
{
    law_name_at_the_start(seq!['/'], name, false);
    law_name_at_the_start(seq!['/'], name, true);
    let path = seq!['/'] + name;
    assert(stands_in(path, parent, false) || stands_in(path, parent, true));
}

/// Processes that are to end are given three seconds: as long as one of them runs
/// they are waited for, after that those that still run are ended by force, and
/// nothing is done about those that have ended.
pub proof fn law_processes_are_given_time_to_end(
    step: KillStep,
    pids: Seq<u32>,
    elapsed_ms: u64,
    procs: Seq<ProcessInfo>,
)
    requires
        is_kill_step(step, pids, elapsed_ms, procs),
    ensures
        elapsed_ms < 3000 ==> (step is Wait <==> exists|i: int|
            0 <= i < pids.len() && lookup(procs, #[trigger] pids[i]) is Some),
        elapsed_ms < 3000 ==> step is Wait || step is Done,
        elapsed_ms >= 3000 ==> step is Force,
        step matches KillStep::Force(left) ==> forall|pid: u32| #[trigger]
            left@.contains(pid) <==> pids.contains(pid) && lookup(procs, pid) is Some,
{
    assert forall|pid: u32| #[trigger] alive(pids, procs).contains(pid) <==> pids.contains(pid)
        && lookup(procs, pid) is Some by {
        law_force_spares_others(pids, procs, pid);
    }
    let left = alive(pids, procs);
    if left.len() > 0 {
        assert(left.contains(left[0]));
        let i = pids.index_of(left[0]);
        assert(lookup(procs, pids[i]) is Some);
    }
    if exists|i: int| 0 <= i < pids.len() && lookup(procs, #[trigger] pids[i]) is Some {
        let i = choose|i: int| 0 <= i < pids.len() && lookup(procs, #[trigger] pids[i]) is Some;
        assert(pids.contains(pids[i]));
        assert(left.contains(pids[i]));
    }
}

/// A watch begins with the settings of its program, with nothing watched and
/// nothing stopped, and with a record of a program that does not run.
pub proof fn law_watch_begins_as_configured(
    monitor: ProgramMonitor,
    id: usize,
    config: LocalProcessConfig,
    alias: Seq<char>,
    windows: bool,
)
    requires
        monitor.begins_as(id, config, alias, windows),
    ensures
        monitor.id == id,
        monitor.auto_restart == config.auto_restart,
        monitor.capture_output == config.capture_output,
        monitor.pid_running is None,
        !monitor.temp_stop,
        monitor.phase == ProgramPhase::Checking,
        monitor.shown_alias@ == debug_text(alias),
        monitor.path@.len() == config.path@.len(),
        forall|i: int|
            0 <= i < config.path@.len() ==> #[trigger] monitor.path@[i] == if windows
                && config.path@[i] == '/' {
                '\\'
            } else {
                config.path@[i]
            },
        idle_record(id) == empty_record(id, false),
        KILL_POLL_MS == 300,
{
}

/// What is said of a watch is said of its own state, of the records and the pending
/// signal of its target, and of what the user interface is told.
pub proof fn law_view_is_that_of_the_watch(
    monitor: ProgramMonitor,
    target: MonitorTarget,
    statuses: Seq<StatusSignal>,
    action: ProgramAction,
    i: int,
)
    requires
        0 <= i < statuses.len(),
        addressed(statuses, monitor.id),
    ensures
        ({
            let v = view_of(monitor, target, statuses, action);
            &&& v.phase == monitor.phase
            &&& v.pid == monitor.pid_running
            &&& v.temp_stop == monitor.temp_stop
            &&& v.records == target.performance_records@
            &&& v.signal == target.control_signal@
            &&& v.action == action
            &&& v.told.len() == statuses.len()
            &&& v.told[i] == (statuses[i].signal@, statuses[i].message@)
        }),
        statuses[i].mt_id == monitor.id,
        statuses[i].target_type@ == "LocalProcess"@,
{
}

/// The settings of a watch stay as they are while it goes on.
pub proof fn law_settings_stay(before: ProgramMonitor, after: ProgramMonitor)
    requires
        after.same_program(before),
    ensures
        after.id == before.id,
        after.shown_alias@ == before.shown_alias@,
        after.path@ == before.path@,
        after.program_name@ == before.program_name@,
        after.auto_restart == before.auto_restart,
        after.capture_output == before.capture_output,
{
}

/// A process is closed down with all that descend from it, itself first, each once,
/// and no other process is; there is nothing to close down if it does not run.
pub proof fn law_process_is_closed_down_with_its_descendants(
    plan: Option<KillPlan>,
    pid: u32,
    procs: Seq<ProcessInfo>,
    i: int,
)
    requires
        distinct(procs),
        !own_ancestor(procs, pid),
        is_kill_plan(plan, pid, procs),
        0 <= i < procs.len(),
    ensures
        plan is Some <==> exists|j: int| 0 <= j < procs.len() && (#[trigger] procs[j]).pid == pid,
        plan matches Some(p) ==> (p.pids@.contains(procs[i].pid) <==> belongs(procs, i, pid)),
        plan matches Some(p) ==> p.pids@.len() > 0 && p.pids@[0] == pid && p.pids@.no_duplicates(),
        plan matches Some(p) ==> forall|n: int|
            0 <= n < p.pids@.len() ==> exists|j: int|
                0 <= j < procs.len() && (#[trigger] procs[j]).pid == #[trigger] p.pids@[n],
{
    match lookup(procs, pid) {
        Some(_) => {
            law_family_is_the_line_of_descent(procs, pid, i);
            law_family_is_complete(procs, pid);
            assert(family(procs, pid)[0] == pid);
        },
        None => {},
    }
    assert forall|j: int| 0 <= j < procs.len() && (#[trigger] procs[j]).pid == pid implies lookup(
        procs,
        pid,
    ) is Some by {
        law_process_is_known_by_its_number(procs, pid, j);
    }
    law_process_is_known_by_its_number(procs, pid, 0);
}

} // verus!
