//! The targets of the application and what may be done with them.

use crate::commands::{CommandError, MonitorTargetDto};
use crate::monitor::{
    job_of, ConsoleMsg, MonitorJob, MonitorShowInfo, MonitorTarget, MonitorTargetType,
};
use crate::process_sampler::ProcessSampler;
use std::collections::HashMap;
use vstd::prelude::*;

verus! {

broadcast use vstd::std_specs::hash::group_hash_axioms;

/// All targets, each under a number.
pub struct MonitorManager {
    monitors: HashMap<usize, MonitorTarget>,
}

impl View for MonitorManager {
    type V = Map<usize, MonitorTarget>;

    closed spec fn view(&self) -> Map<usize, MonitorTarget> {
        self.monitors@
    }
}

/// Whether a program is being watched.
pub open spec fn watches_program(targets: Map<usize, MonitorTarget>) -> bool {
    exists|k: usize| #[trigger]
        targets.contains_key(k) && targets[k].monitor_enabled
            && targets[k].target_type_cfg is LocalProcess
}

/// The keys of `targets`, each once, in some order.
pub open spec fn lists_keys(targets: Map<usize, MonitorTarget>, keys: Seq<usize>) -> bool {
    keys.no_duplicates() && keys.to_set() == targets.dom()
}

/// Whether `ids` are the numbers that the switched on targets carry; `keys` are
/// the keys of these targets in the same order.
pub open spec fn lists_active(
    targets: Map<usize, MonitorTarget>,
    keys: Seq<usize>,
    ids: Seq<usize>,
) -> bool {
    &&& keys.no_duplicates()
    &&& forall|k: usize| #[trigger]
        keys.contains(k) <==> targets.contains_key(k) && targets[k].monitor_enabled
    &&& ids == keys.map_values(|k: usize| targets[k].id)
}

/// What follows once a target was asked to stop.
#[derive(Clone, Copy, Debug, PartialEq, Eq, Structural)]
pub enum StopAction {
    /// Nothing was running.
    Nothing,
    /// The task is ended by force.
    Abort(u64),
    /// The task is given time to end by itself, and ended by force after that.
    Wait(u64),
}

/// How often an ending task is looked at before it is ended by force.
pub const STOP_POLLS: u32 = 200;

/// The pause between two looks at an ending task, in milliseconds.
pub const STOP_POLL_MS: u64 = 50;

/// Waiting for a task to end.
#[derive(Clone, Copy, Debug, PartialEq, Eq, Structural)]
pub struct TaskWait {
    pub task: u64,
    pub polls_left: u32,
}

/// A stop that is under way: what it asks for, or its answer.
#[derive(Clone, Copy, Debug, PartialEq, Eq, Structural)]
pub enum StopRun {
    /// End a worker of the sampler of processes.
    StopSampler(u64, StopAction),
    /// End the running work of a target by force; the answer is known by now.
    Abort { task: u64, answer: bool },
    /// Look whether the task has ended.
    Look(TaskWait),
    /// Sleep for a moment.
    Sleep(TaskWait),
    /// Nothing more; the answer is whether the stop has succeeded.
    Finished(bool),
}

impl StopAction {
    /// What a stop asks for first.
    pub open spec fn first(self) -> StopRun {
        match self {
            StopAction::Nothing => StopRun::Finished(true),
            StopAction::Abort(task) => StopRun::Abort { task, answer: true },
            StopAction::Wait(task) => StopRun::Look(TaskWait { task, polls_left: STOP_POLLS }),
        }
    }

    /// What a stop asks for first.
    fn begin(self) -> (res: StopRun)
        ensures
            res == self.first(),
    {
        match self {
            StopAction::Nothing => StopRun::Finished(true),
            StopAction::Abort(task) => StopRun::Abort { task, answer: true },
            StopAction::Wait(task) => StopRun::Look(TaskWait { task, polls_left: STOP_POLLS }),
        }
    }
}

impl StopRun {
    /// What follows once was done what the stop asks for; `ended` is whether the
    /// task that it looks at has ended. A task that has not ended after the last
    /// look is ended by force, and the stop has failed.
    pub open spec fn went_on(self, ended: bool) -> StopRun {
        match self {
            StopRun::StopSampler(_, action) => action.first(),
            StopRun::Abort { task, answer } => StopRun::Finished(answer),
            StopRun::Look(wait) => if wait.polls_left == 0 {
                StopRun::Abort { task: wait.task, answer: false }
            } else if ended {
                StopRun::Finished(true)
            } else {
                StopRun::Sleep(
                    TaskWait { task: wait.task, polls_left: (wait.polls_left - 1) as u32 },
                )
            },
            StopRun::Sleep(wait) => StopRun::Look(wait),
            StopRun::Finished(answer) => StopRun::Finished(answer),
        }
    }

    /// What follows once was done what the stop asks for.
    pub fn next(self, ended: bool) -> (res: Self)
        ensures
            res == self.went_on(ended),
    {
        match self {
            StopRun::StopSampler(_, action) => action.begin(),
            StopRun::Abort { task: _, answer } => StopRun::Finished(answer),
            StopRun::Look(wait) => if wait.polls_left == 0 {
                StopRun::Abort { task: wait.task, answer: false }
            } else if ended {
                StopRun::Finished(true)
            } else {
                StopRun::Sleep(TaskWait { task: wait.task, polls_left: wait.polls_left - 1 })
            },
            StopRun::Sleep(wait) => StopRun::Look(wait),
            StopRun::Finished(answer) => StopRun::Finished(answer),
        }
    }

    /// An upper bound of the steps that are left.
    pub open spec fn steps_left(self) -> nat {
        match self {
            StopRun::StopSampler(_, _) => 2 * STOP_POLLS as nat + 4,
            StopRun::Abort { .. } => 1,
            StopRun::Look(wait) => 2 * wait.polls_left as nat + 2,
            StopRun::Sleep(wait) => 2 * wait.polls_left as nat + 3,
            StopRun::Finished(_) => 0,
        }
    }

    /// The state after a number of steps on which the task had not ended.
    pub open spec fn unended(self, steps: nat) -> StopRun
        decreases steps,
    {
        if steps == 0 {
            self
        } else {
            self.went_on(false).unended((steps - 1) as nat)
        }
    }
}

/// What became of the request to start a target.
#[derive(Debug)]
pub enum EnableStep {
    /// There is no such target, and nothing else is to be done.
    Missing,
    /// The target runs, which is to be stored. A task that was not running yet has
    /// work to do, and a worker of the sampler of processes may have to be started.
    Running { job: Option<MonitorJob>, start_worker: bool },
}

impl EnableStep {
    /// Whether the request succeeds, given whether the change could be stored.
    pub fn outcome(&self, saved: bool) -> (res: bool)
        ensures
            res == (self is Running && saved),
    {
        match self {
            EnableStep::Missing => false,
            EnableStep::Running { .. } => saved,
        }
    }
}

/// A removal that is under way: what it asks for, or its answer.
pub enum Removal {
    /// The target is being stopped; what the stop asks for.
    Stopping(usize, StopRun),
    /// The target is to be deleted from the database.
    Delete(usize),
    /// The deletion is to be committed; `true` if there was such a target.
    Commit(bool),
    /// The answer.
    Finished(Result<String, CommandError>),
}

/// A removal once its stop has come to a point.
pub open spec fn removal_after(id: usize, run: StopRun) -> Removal {
    if run is Finished {
        Removal::Delete(id)
    } else {
        Removal::Stopping(id, run)
    }
}

/// The answer to what a removal asked for.
pub enum RemovalEvent {
    /// What the stop asked for was done; whether the task has ended.
    Stepped { ended: bool },
    /// How the database has answered.
    Stored(Result<(), String>),
}

/// A restart that is under way: what it asks for.
#[derive(Debug)]
pub enum Restart {
    /// The target is to be stopped.
    Stop(usize),
    /// The target is being stopped; what the stop asks for.
    Stopping(usize, StopRun),
    /// The target is to be started.
    Start(usize),
    /// Nothing more than the work that the new task has to do.
    Started(Option<MonitorJob>),
}

/// A restart once its stop has come to a point. It goes on whether the stop has
/// succeeded or not.
pub open spec fn restart_after(id: usize, run: StopRun) -> Restart {
    if run is Finished {
        Restart::Start(id)
    } else {
        Restart::Stopping(id, run)
    }
}

/// What an accepted change of a target's configuration leads to.
#[derive(Debug)]
pub struct ConfigUpdate {
    /// The answer.
    pub message: String,
    /// The restart of a target that is running.
    pub restart: Option<Restart>,
}

/// A stored target.
#[derive(Debug)]
pub struct TargetRow {
    pub id: usize,
    pub target_type: MonitorTargetType,
    pub alias: String,
    pub monitor_enabled: bool,
}

impl TargetRow {
    /// Whether `target` is this row with nothing running yet.
    pub open spec fn becomes(self, target: MonitorTarget) -> bool {
        &&& target.id == self.id
        &&& target.target_type_cfg == self.target_type
        &&& target.alias == self.alias
        &&& target.monitor_enabled == self.monitor_enabled
        &&& target.task_handle is None
        &&& target.performance_records@.len() == 0
        &&& target.control_signal@.len() == 0
        &&& target.console_outputs@.len() == 0
    }
}

/// The last readable row with the given number.
pub open spec fn last_row(rows: Seq<Result<TargetRow, String>>, id: usize) -> Option<TargetRow>
    decreases rows.len(),
{
    if rows.len() == 0 {
        None
    } else {
        match rows.last() {
            Ok(row) => if row.id == id {
                Some(row)
            } else {
                last_row(rows.drop_last(), id)
            },
            Err(_) => last_row(rows.drop_last(), id),
        }
    }
}

/// The targets after those that `finished` names have forgotten their tasks.
pub open spec fn all_reconciled(targets: Map<usize, MonitorTarget>, finished: Seq<usize>) -> Map<
    usize,
    MonitorTarget,
> {
    targets.map_entries(|k: usize, t: MonitorTarget| t.reconciled(finished.contains(k)))
}

/// Whether `infos` shows every target once, the larger numbers first; `keys`
/// are the keys of the targets in that order.
pub open spec fn shows_all(
    targets: Map<usize, MonitorTarget>,
    keys: Seq<usize>,
    infos: Seq<MonitorShowInfo>,
) -> bool {
    &&& lists_keys(targets, keys)
    &&& infos.len() == keys.len()
    &&& forall|i: int| 0 <= i < infos.len() ==> targets[keys[i]].shown_as(#[trigger] infos[i])
    &&& forall|i: int, j: int| 0 <= i < j < infos.len() ==> infos[i].id >= infos[j].id
}

/// Whether `after` are the targets once one was to be stopped.
pub open spec fn disabled(
    before: Map<usize, MonitorTarget>,
    after: Map<usize, MonitorTarget>,
    id: usize,
    saved: bool,
    finished: bool,
) -> bool {
    after == (if saved && before.contains_key(id) {
        before.insert(id, before[id].stopped(finished))
    } else {
        before
    })
}

/// What follows on the task of a target that was stopped: that of a remote host
/// is ended by force at once.
pub open spec fn stop_action(target: MonitorTarget, finished: bool) -> StopAction {
    match target.running_task(finished) {
        None => StopAction::Nothing,
        Some(task) => if target.target_type_cfg is RemoteHost {
            StopAction::Abort(task)
        } else {
            StopAction::Wait(task)
        },
    }
}

/// Whether a program is watched once a target was stopped.
pub open spec fn still_watches(
    targets: Map<usize, MonitorTarget>,
    id: usize,
    finished: bool,
) -> bool {
    watches_program(targets.insert(id, targets[id].stopped(finished)))
}

/// The sampler of processes once a target was to be stopped.
pub open spec fn released(
    sampler: ProcessSampler,
    targets: Map<usize, MonitorTarget>,
    id: usize,
    saved: bool,
    finished: bool,
) -> ProcessSampler {
    if saved && targets.contains_key(id) && !still_watches(targets, id, finished) {
        ProcessSampler { worker: None, ..sampler }
    } else {
        sampler
    }
}

/// What the stop of a target asks for.
pub open spec fn disable_run(
    sampler: ProcessSampler,
    targets: Map<usize, MonitorTarget>,
    id: usize,
    saved: bool,
    finished: bool,
) -> StopRun {
    if !saved || !targets.contains_key(id) {
        StopRun::Finished(false)
    } else {
        let action = stop_action(targets[id], finished);
        if sampler.worker is Some && !still_watches(targets, id, finished) {
            StopRun::StopSampler(sampler.worker->0, action)
        } else {
            action.first()
        }
    }
}

/// Whether a removal has gone one step further: `event` is the answer to what it
/// asked for.
pub open spec fn removes(
    before: Map<usize, MonitorTarget>,
    after: Map<usize, MonitorTarget>,
    step: Removal,
    event: RemovalEvent,
    res: Removal,
) -> bool {
    match (step, event) {
        (Removal::Stopping(id, run), RemovalEvent::Stepped { ended }) => {
            &&& after == before
            &&& res == removal_after(id, run.went_on(ended))
        },
        (Removal::Delete(id), RemovalEvent::Stored(reply)) => match reply {
            Ok(_) => {
                &&& after == before.remove(id)
                &&& res == Removal::Commit(before.contains_key(id))
            },
            Err(e) => {
                &&& after == before
                &&& res == Removal::Finished(Err(CommandError(e)))
            },
        },
        (Removal::Commit(found), RemovalEvent::Stored(reply)) => after == before && match reply {
            Err(e) => res == Removal::Finished(Err(CommandError(e))),
            Ok(_) => if found {
                res matches Removal::Finished(Ok(text)) && text@ == "删除成功"@
            } else {
                res matches Removal::Finished(Err(e)) && e.0@ == "删除目标不存在"@
            },
        },
        (_, _) => after == before && res == step,
    }
}

/// Whether the configuration of a target was changed, or why it was not; `saved`
/// says how storing it went.
pub open spec fn updates(
    before: Map<usize, MonitorTarget>,
    after: Map<usize, MonitorTarget>,
    form: MonitorTargetDto,
    saved: Result<(), String>,
    res: Result<ConfigUpdate, CommandError>,
) -> bool {
    let id = form.id->0;
    if !before.contains_key(id) {
        &&& res matches Err(e) && e.0@ == "修改的监控目标不存在"@
        &&& after == before
    } else if saved is Err {
        &&& res == Err::<ConfigUpdate, CommandError>(CommandError(saved->Err_0))
        &&& after == before
    } else {
        let target = before[id];
        &&& res matches Ok(update) && update.message@ == "修改成功，正在自动重启监控"@
            && update.restart == (if target.monitor_enabled {
            Some(Restart::Stop(id))
        } else {
            None
        })
        &&& after == before.insert(
            id,
            MonitorTarget { alias: form.alias, target_type_cfg: form.target_type, ..target },
        )
    }
}

/// Whether a target was started as the task numbered `task`, if there is one.
pub open spec fn enables(
    before: Map<usize, MonitorTarget>,
    after: Map<usize, MonitorTarget>,
    sampler: ProcessSampler,
    id: usize,
    finished: bool,
    task: u64,
    res: EnableStep,
) -> bool {
    if !before.contains_key(id) {
        res is Missing && after == before
    } else {
        let target = before[id];
        &&& res == (EnableStep::Running {
            job: if target.running_task(finished) is Some {
                None
            } else {
                Some(job_of(target.target_type_cfg))
            },
            start_worker: sampler.worker is None,
        })
        &&& after == before.insert(id, target.started(finished, task))
    }
}

/// Whether a restart has gone one step further.
pub open spec fn restarts(
    before: Map<usize, MonitorTarget>,
    after: Map<usize, MonitorTarget>,
    run: Restart,
    ended: bool,
    task: u64,
    res: Restart,
) -> bool {
    match run {
        Restart::Stop(id) => if !before.contains_key(id) {
            res == Restart::Start(id) && after == before
        } else {
            let target = before[id];
            &&& after == before.insert(id, target.stopped(ended))
            &&& res == restart_after(
                id,
                match target.running_task(ended) {
                    Some(running) => StopAction::Wait(running).first(),
                    None => StopAction::Nothing.first(),
                },
            )
        },
        Restart::Stopping(id, stop) => {
            &&& after == before
            &&& res == restart_after(id, stop.went_on(ended))
        },
        Restart::Start(id) => if !before.contains_key(id) {
            res == Restart::Started(None) && after == before
        } else {
            let target = before[id];
            &&& after == before.insert(id, target.started(ended, task))
            &&& res == Restart::Started(
                if target.running_task(ended) is Some {
                    None
                } else {
                    Some(job_of(target.target_type_cfg))
                },
            )
        },
        Restart::Started(_) => res == Restart::Started(None) && after == before,
    }
}

/// The targets once a control signal was left for one of them, if it is there.
pub open spec fn signalled(targets: Map<usize, MonitorTarget>, id: usize, signal: String) -> Map<
    usize,
    MonitorTarget,
> {
    if targets.contains_key(id) {
        targets.insert(id, MonitorTarget { control_signal: signal, ..targets[id] })
    } else {
        targets
    }
}

impl MonitorManager {
    /// A manager without targets.
    pub fn new() -> (res: Self)
        ensures
            res@ == Map::<usize, MonitorTarget>::empty(),
    {
        MonitorManager { monitors: HashMap::new() }
    }

    /// Puts a target under a number, in place of the one that was there.
    pub fn add_monitor(&mut self, id: usize, monitor: MonitorTarget)
        ensures
            final(self)@ == old(self)@.insert(id, monitor),
    {
        self.monitors.insert(id, monitor);
    }

    /// The target under a number.
    pub fn target(&self, id: usize) -> (res: Option<&MonitorTarget>)
        ensures
            match res {
                Some(target) => self@.contains_key(id) && *target == self@[id],
                None => !self@.contains_key(id),
            },
    {
        self.monitors.get(&id)
    }

    /// Takes the target under a number out.
    pub fn take_target(&mut self, id: usize) -> (res: Option<MonitorTarget>)
        ensures
            final(self)@ == old(self)@.remove(id),
            match res {
                Some(target) => old(self)@.contains_key(id) && target == old(self)@[id],
                None => !old(self)@.contains_key(id),
            },
    {
        self.monitors.remove(&id)
    }

    /// The numbers of all targets, in some order.
    pub fn ids(&self) -> (res: Vec<usize>)
        ensures
            lists_keys(self@, res@),
    {
        let mut out: Vec<usize> = Vec::new();
        for k in it: self.monitors.keys()
            invariant
                it.seq().unref().to_set() == self.monitors@.dom(),
                it.seq().no_duplicates(),
                out@ == it.seq().unref().take(it.index()),
                it.index() == it.seq().len() ==> out@ =~= it.seq().unref(),
        {
            out.push(*k);
        }
        assert(out@.to_set() == self.monitors@.dom());
        assert(out@.no_duplicates());
        out
    }

    /// Begins to remove a target: it is stopped first. `saved` says whether that
    /// could be stored, and `finished` whether its task has ended already.
    pub fn begin_removal(
        &mut self,
        sampler: &mut ProcessSampler,
        id: usize,
        saved: Result<(), String>,
        finished: bool,
    ) -> (res: Removal)
        ensures
            disabled(old(self)@, final(self)@, id, saved is Ok, finished),
            *final(sampler) == released(*old(sampler), old(self)@, id, saved is Ok, finished),
            res == removal_after(
                id,
                disable_run(*old(sampler), old(self)@, id, saved is Ok, finished),
            ),
    {
        match self.disable_monitor(sampler, id, saved, finished) {
            StopRun::Finished(_) => Removal::Delete(id),
            run => Removal::Stopping(id, run),
        }
    }

    /// Takes a removal one step further; `event` is the answer to what it asked for.
    pub fn remove_monitor(&mut self, step: Removal, event: RemovalEvent) -> (res: Removal)
        ensures
            removes(old(self)@, final(self)@, step, event, res),
    {
        match (step, event) {
            (Removal::Stopping(id, run), RemovalEvent::Stepped { ended }) => match run.next(ended) {
                StopRun::Finished(_) => Removal::Delete(id),
                run => Removal::Stopping(id, run),
            },
            (Removal::Delete(id), RemovalEvent::Stored(reply)) => match reply {
                Ok(_) => Removal::Commit(self.take_target(id).is_some()),
                Err(e) => Removal::Finished(Err(CommandError(e))),
            },
            (Removal::Commit(found), RemovalEvent::Stored(reply)) => match reply {
                Err(e) => Removal::Finished(Err(CommandError(e))),
                Ok(_) => if found {
                    Removal::Finished(Ok("删除成功".to_string()))
                } else {
                    Removal::Finished(Err(CommandError("删除目标不存在".to_string())))
                },
            },
            (step, _) => step,
        }
    }

    /// Changes the configuration of a target once it was stored; `saved` says
    /// how that went.
    pub fn update_monitor_config(
        &mut self,
        update_target_form: MonitorTargetDto,
        saved: Result<(), String>,
    ) -> (res: Result<ConfigUpdate, CommandError>)
        requires
            update_target_form.id is Some,
        ensures
            updates(old(self)@, final(self)@, update_target_form, saved, res),
    {
        let id = update_target_form.id.unwrap();
        match self.take_target(id) {
            None => {
                assert(self@ =~= old(self)@);
                Err(CommandError("修改的监控目标不存在".to_string()))
            },
            Some(mut target) => match saved {
                Err(e) => {
                    self.add_monitor(id, target);
                    assert(self@ =~= old(self)@);
                    Err(CommandError(e))
                },
                Ok(_) => {
                    target.alias = update_target_form.alias;
                    target.target_type_cfg = update_target_form.target_type;
                    let restart = if target.monitor_enabled {
                        Some(Restart::Stop(id))
                    } else {
                        None
                    };
                    self.add_monitor(id, target);
                    assert(self@ =~= old(self)@.insert(id, target));
                    Ok(
                        ConfigUpdate {
                            message: "修改成功，正在自动重启监控".to_string(),
                            restart,
                        },
                    )
                },
            },
        }
    }

    /// Starts a target as the task numbered `task`, and the sampler of processes
    /// with `worker` unless it is at work; `finished` says whether the task that
    /// the target has, if any, has ended.
    pub fn enable_monitor(
        &mut self,
        sampler: &mut ProcessSampler,
        id: usize,
        finished: bool,
        task: u64,
        worker: u64,
    ) -> (res: EnableStep)
        ensures
            enables(old(self)@, final(self)@, *old(sampler), id, finished, task, res),
            *final(sampler) == (if old(self)@.contains_key(id) {
                old(sampler).spawned(worker)
            } else {
                *old(sampler)
            }),
            old(self)@.contains_key(id) ==> final(sampler).worker is Some,
    {
        if !self.monitors.contains_key(&id) {
            return EnableStep::Missing;
        }
        let start_worker = sampler.spawn(worker);
        let job = self.start_target(id, finished, task);
        EnableStep::Running { job, start_worker }
    }

    /// Starts a target, if there is one, as the task numbered `task`.
    fn start_target(&mut self, id: usize, finished: bool, task: u64) -> (res: Option<MonitorJob>)
        ensures
            if !old(self)@.contains_key(id) {
                res is None && final(self)@ == old(self)@
            } else {
                let before = old(self)@[id];
                &&& res == (if before.running_task(finished) is Some {
                    None
                } else {
                    Some(job_of(before.target_type_cfg))
                })
                &&& final(self)@ == old(self)@.insert(id, before.started(finished, task))
            },
    {
        match self.take_target(id) {
            None => {
                assert(self@ =~= old(self)@);
                None
            },
            Some(mut target) => {
                let job = target.start_monitor(finished, task);
                self.add_monitor(id, target);
                assert(self@ =~= old(self)@.insert(id, target));
                job
            },
        }
    }

    /// Whether a program is being watched.
    fn any_program(&self) -> (res: bool)
        ensures
            res == watches_program(self@),
    {
        let keys = self.ids();
        let mut i: usize = 0;
        while i < keys.len()
            invariant
                i <= keys.len(),
                lists_keys(self@, keys@),
                forall|j: int|
                    0 <= j < i ==> !(self@[#[trigger] keys@[j]].monitor_enabled
                        && self@[keys@[j]].target_type_cfg is LocalProcess),
            decreases keys.len() - i,
        {
            assert(keys@.to_set().contains(keys@[i as int]));
            match self.monitors.get(&keys[i]) {
                Some(target) => {
                    if target.monitor_enabled && matches!(
                        target.target_type_cfg,
                        MonitorTargetType::LocalProcess(_)
                    ) {
                        assert(self@.contains_key(keys@[i as int]));
                        return true;
                    }
                },
                None => {},
            }
            i += 1;
        }
        assert forall|k: usize| #[trigger] self@.contains_key(k) implies !(self@[k].monitor_enabled
            && self@[k].target_type_cfg is LocalProcess) by {
            assert(keys@.to_set().contains(k));
        }
        false
    }

    /// Stops a target once the change was stored; `saved` says how that went,
    /// and `finished` whether the target's task has ended already. The sampler of
    /// processes stops with it if no program is watched any more.
    pub fn disable_monitor(
        &mut self,
        sampler: &mut ProcessSampler,
        id: usize,
        saved: Result<(), String>,
        finished: bool,
    ) -> (res: StopRun)
        ensures
            disabled(old(self)@, final(self)@, id, saved is Ok, finished),
            *final(sampler) == released(*old(sampler), old(self)@, id, saved is Ok, finished),
            res == disable_run(*old(sampler), old(self)@, id, saved is Ok, finished),
    {
        if saved.is_err() {
            return StopRun::Finished(false);
        }
        match self.take_target(id) {
            None => {
                assert(self@ =~= old(self)@);
                StopRun::Finished(false)
            },
            Some(mut target) => {
                let remote = matches!(target.target_type_cfg, MonitorTargetType::RemoteHost(_));
                let task = target.stop_monitor(finished);
                self.add_monitor(id, target);
                assert(self@ =~= old(self)@.insert(id, target));
                let action = match task {
                    None => StopAction::Nothing,
                    Some(task) => if remote {
                        StopAction::Abort(task)
                    } else {
                        StopAction::Wait(task)
                    },
                };
                if self.any_program() {
                    return action.begin();
                }
                match sampler.stop() {
                    Some(worker) => StopRun::StopSampler(worker, action),
                    None => action.begin(),
                }
            },
        }
    }

    /// Takes the restart of a target one step further, as the task numbered
    /// `task`. `ended` says whether the task has ended that the target has, or
    /// that its stop looks at.
    pub fn restart(&mut self, run: Restart, ended: bool, task: u64) -> (res: Restart)
        ensures
            restarts(old(self)@, final(self)@, run, ended, task, res),
    {
        match run {
            Restart::Stop(id) => match self.take_target(id) {
                None => {
                    assert(self@ =~= old(self)@);
                    Restart::Start(id)
                },
                Some(mut target) => {
                    let running = target.stop_monitor(ended);
                    self.add_monitor(id, target);
                    assert(self@ =~= old(self)@.insert(id, target));
                    match running {
                        Some(running) => Restart::Stopping(id, StopAction::Wait(running).begin()),
                        None => Restart::Start(id),
                    }
                },
            },
            Restart::Stopping(id, stop) => match stop.next(ended) {
                StopRun::Finished(_) => Restart::Start(id),
                stop => Restart::Stopping(id, stop),
            },
            Restart::Start(id) => Restart::Started(self.start_target(id, ended, task)),
            Restart::Started(_) => Restart::Started(None),
        }
    }

    /// The targets that are to be started when the application starts, in some order.
    pub fn start_all_active_monitors(&self) -> (res: Vec<usize>)
        ensures
            exists|keys: Seq<usize>| lists_active(self@, keys, res@),
    {
        let keys = self.ids();
        let mut out: Vec<usize> = Vec::new();
        let ghost mut active: Seq<usize> = Seq::empty();
        let mut i: usize = 0;
        while i < keys.len()
            invariant
                i <= keys.len(),
                lists_keys(self@, keys@),
                active.no_duplicates(),
                forall|k: usize| #[trigger]
                    active.contains(k) <==> keys@.take(i as int).contains(k)
                        && self@[k].monitor_enabled,
                active.map_values(|k: usize| self@[k].id) == out@,
            decreases keys.len() - i,
        {
            let key = keys[i];
            assert(keys@.to_set().contains(key));
            let ghost before = active;
            assert(keys@.take(i + 1) =~= keys@.take(i as int).push(key));
            assert(!keys@.take(i as int).contains(key));
            match self.monitors.get(&key) {
                Some(target) => {
                    if target.monitor_enabled {
                        out.push(target.id);
                        proof {
                            assert forall|j: int| 0 <= j < before.len() implies before[j] != key by {
                                assert(before.contains(before[j]));
                            }
                            active = active.push(key);
                            assert forall|k: usize| #[trigger] active.contains(k) implies before.contains(
                                k,
                            ) || k == key by {}
                            assert(active[active.len() - 1] == key);
                            assert forall|k: usize| before.contains(k) implies #[trigger] active.contains(
                                k,
                            ) by {
                                let j = before.index_of(k);
                                assert(active[j] == k);
                            }
                            assert(active.map_values(|k: usize| self@[k].id) =~= out@);
                        }
                    }
                },
                None => {},
            }
            proof {
                assert forall|k: usize| #[trigger] keys@.take(i + 1).contains(k) <==> keys@.take(
                    i as int,
                ).contains(k) || k == key by {
                    let now = keys@.take(i + 1);
                    if keys@.take(i as int).contains(k) {
                        let j = keys@.take(i as int).index_of(k);
                        assert(now[j] == k);
                    }
                    if k == key {
                        assert(now[i as int] == k);
                    }
                }
            }
            i += 1;
        }
        assert(keys@.take(i as int) =~= keys@);
        assert forall|k: usize| #[trigger] active.contains(k) <==> self@.contains_key(k)
            && self@[k].monitor_enabled by {
            assert(keys@.to_set().contains(k) == keys@.contains(k));
        }
        assert(lists_active(self@, active, out@));
        out
    }

    /// How the overview shows all targets; `finished` are the keys of those
    /// whose task has ended.
    pub fn get_all_monitor_info(&mut self, finished: &Vec<usize>) -> (res: Vec<MonitorShowInfo>)
        ensures
            final(self)@ == all_reconciled(old(self)@, finished@),
            exists|keys: Seq<usize>| shows_all(final(self)@, keys, res@),
    {
        let keys = self.ids();
        let mut infos: Vec<MonitorShowInfo> = Vec::new();
        let ghost target = all_reconciled(old(self)@, finished@);
        let ghost mut order: Seq<usize> = Seq::empty();
        let mut i: usize = 0;
        while i < keys.len()
            invariant
                i <= keys.len(),
                target == all_reconciled(old(self)@, finished@),
                lists_keys(old(self)@, keys@),
                self@.dom() == old(self)@.dom(),
                forall|k: usize| #[trigger]
                    self@.contains_key(k) ==> self@[k] == (if keys@.take(i as int).contains(k) {
                        target[k]
                    } else {
                        old(self)@[k]
                    }),
                order.len() == i,
                infos.len() == i,
                order.no_duplicates(),
                order.to_set() == keys@.take(i as int).to_set(),
                forall|j: int| 0 <= j < i ==> target[order[j]].shown_as(#[trigger] infos@[j]),
                forall|a: int, b: int| 0 <= a < b < i ==> infos@[a].id >= infos@[b].id,
            decreases keys.len() - i,
        {
            let key = keys[i];
            let ghost before = self@;
            let ghost seen = keys@.take(i as int);
            assert(keys@.to_set().contains(key));
            assert(keys@.take(i + 1) =~= seen.push(key));
            assert(!seen.contains(key));
            assert(before.contains_key(key));
            match self.take_target(key) {
                Some(mut monitor) => {
                    let ended = contains(finished, key);
                    let info = monitor.show_info(ended);
                    self.add_monitor(key, monitor);
                    assert(monitor == target[key]);
                    let mut p: usize = 0;
                    while p < infos.len() && infos[p].id >= info.id
                        invariant
                            p <= infos.len(),
                            forall|j: int| 0 <= j < p ==> infos@[j].id >= info.id,
                        decreases infos.len() - p,
                    {
                        p += 1;
                    }
                    let ghost old_infos = infos@;
                    let ghost old_order = order;
                    infos.insert(p, info);
                    proof {
                        order = order.insert(p as int, key);
                        lemma_insert_key(old_order, seen, p as int, key);
                        assert forall|j: int| 0 <= j < i + 1 implies target[order[j]].shown_as(
                            #[trigger] infos@[j],
                        ) by {
                            if j < p {
                                assert(infos@[j] == old_infos[j] && order[j] == old_order[j]);
                            } else if j > p {
                                assert(infos@[j] == old_infos[j - 1] && order[j] == old_order[j
                                    - 1]);
                            }
                        }
                        assert(self@.dom() =~= old(self)@.dom());
                        assert forall|k: usize| #[trigger] self@.contains_key(k) implies self@[k]
                            == (if keys@.take(i + 1).contains(k) {
                            target[k]
                        } else {
                            old(self)@[k]
                        }) by {
                            lemma_push_contains(seen, key, k);
                            if k != key {
                                assert(before.contains_key(k));
                            }
                        }
                    }
                },
                None => {},
            }
            i += 1;
        }
        proof {
            assert(keys@.take(i as int) =~= keys@);
            assert(self@ =~= target) by {
                assert forall|k: usize| #[trigger] self@.contains_key(k) implies self@[k]
                    == target[k] by {
                    assert(keys@.to_set().contains(k));
                }
                assert(self@.dom() =~= target.dom());
            }
            assert(shows_all(self@, order, infos@));
        }
        infos
    }

    /// Adds the stored targets; rows that could not be read are passed over.
    pub fn ini_monitor_targets_from_db(&mut self, rows: Vec<Result<TargetRow, String>>)
        ensures
            forall|k: usize|
                match last_row(rows@, k) {
                    Some(row) => #[trigger] final(self)@.contains_key(k) && row.becomes(
                        final(self)@[k],
                    ),
                    None => {
                        &&& final(self)@.contains_key(k) == old(self)@.contains_key(k)
                        &&& final(self)@.contains_key(k) ==> final(self)@[k] == old(self)@[k]
                    },
                },
    {
        let mut i: usize = 0;
        while i < rows.len()
            invariant
                i <= rows.len(),
                forall|k: usize|
                    match last_row(rows@.take(i as int), k) {
                        Some(row) => #[trigger] self@.contains_key(k) && row.becomes(self@[k]),
                        None => {
                            &&& self@.contains_key(k) == old(self)@.contains_key(k)
                            &&& self@.contains_key(k) ==> self@[k] == old(self)@[k]
                        },
                    },
            decreases rows.len() - i,
        {
            let ghost before = self@;
            let ghost seen = rows@.take(i as int);
            assert(rows@.take(i + 1).drop_last() =~= seen);
            match &rows[i] {
                Ok(row) => {
                    if let Ok(target) = MonitorTarget::new(
                        row.id,
                        row.target_type.clone(),
                        row.alias.clone(),
                        row.monitor_enabled,
                    ) {
                        self.add_monitor(row.id, target);
                    }
                },
                Err(_) => {},
            }
            proof {
                assert forall|k: usize|
                    match last_row(rows@.take(i + 1), k) {
                        Some(row) => #[trigger] self@.contains_key(k) && row.becomes(self@[k]),
                        None => {
                            &&& self@.contains_key(k) == old(self)@.contains_key(k)
                            &&& self@.contains_key(k) ==> self@[k] == old(self)@[k]
                        },
                    } by {
                    assert(before.contains_key(k) || !before.contains_key(k));
                    assert(rows@.take(i + 1).last() == rows@[i as int]);
                }
            }
            i += 1;
        }
        assert(rows@.take(i as int) =~= rows@);
    }

    /// Leaves a control signal for a target; `false` if there is no such target.
    pub fn change_control_signal(&mut self, id: usize, signal: String) -> (res: bool)
        ensures
            res == old(self)@.contains_key(id),
            final(self)@ == signalled(old(self)@, id, signal),
    {
        match self.take_target(id) {
            None => {
                assert(self@ =~= old(self)@);
                false
            },
            Some(mut target) => {
                target.control_signal = signal;
                self.add_monitor(id, target);
                assert(self@ =~= old(self)@.insert(id, target));
                true
            },
        }
    }

    /// The configuration of a target.
    pub fn get_monitor_config_by_id(&self, id: usize) -> (res: Option<MonitorTargetDto>)
        ensures
            match res {
                Some(dto) => {
                    &&& self@.contains_key(id)
                    &&& dto.id == Some(self@[id].id)
                    &&& dto.target_type == self@[id].target_type_cfg
                    &&& dto.alias == self@[id].alias
                },
                None => !self@.contains_key(id),
            },
    {
        match self.monitors.get(&id) {
            Some(target) => Some(target.get_config()),
            None => None,
        }
    }

    /// The console messages that a target keeps; none if there is no such target.
    pub fn get_target_console_output(&self, id: usize) -> (res: Vec<ConsoleMsg>)
        ensures
            res@ == (if self@.contains_key(id) {
                self@[id].console_outputs@
            } else {
                Seq::empty()
            }),
    {
        let mut out: Vec<ConsoleMsg> = Vec::new();
        match self.monitors.get(&id) {
            Some(target) => {
                let mut i: usize = 0;
                while i < target.console_outputs.len()
                    invariant
                        i <= target.console_outputs.len(),
                        out@ == target.console_outputs@.take(i as int),
                    decreases target.console_outputs.len() - i,
                {
                    out.push(target.console_outputs[i].clone());
                    i += 1;
                }
            },
            None => {},
        }
        assert(out@ =~= (if self@.contains_key(id) {
            self@[id].console_outputs@
        } else {
            Seq::empty()
        }));
        out
    }
}

/// Whether a number is in a list.
fn contains(list: &Vec<usize>, id: usize) -> (res: bool)
    ensures
        res == list@.contains(id),
{
    let mut i: usize = 0;
    while i < list.len()
        invariant
            i <= list.len(),
            forall|j: int| 0 <= j < i ==> list@[j] != id,
        decreases list.len() - i,
    {
        if list[i] == id {
            return true;
        }
        i += 1;
    }
    false
}

proof fn lemma_push_contains(s: Seq<usize>, x: usize, k: usize)
    ensures
        s.push(x).contains(k) <==> s.contains(k) || k == x,
{
    let t = s.push(x);
    if s.contains(k) {
        assert(t[s.index_of(k)] == k);
    }
    assert(t[s.len() as int] == x);
}

/// Inserting a new key keeps a list free of duplicates.
proof fn lemma_insert_key(order: Seq<usize>, seen: Seq<usize>, p: int, key: usize)
    requires
        0 <= p <= order.len(),
        order.no_duplicates(),
        order.to_set() == seen.to_set(),
        !seen.contains(key),
    ensures
        order.insert(p, key).no_duplicates(),
        order.insert(p, key).to_set() == seen.push(key).to_set(),
{
    let now = order.insert(p, key);
    assert forall|k: usize| order.contains(k) == seen.contains(k) by {
        assert(order.to_set().contains(k) <==> order.contains(k));
        assert(seen.to_set().contains(k) <==> seen.contains(k));
    }
    assert forall|j: int| 0 <= j < order.len() implies order[j] != key by {
        assert(order.contains(order[j]));
    }
    assert forall|k: usize| now.contains(k) <==> (order.contains(k) || k == key) by {
        if now.contains(k) {
            let j = now.index_of(k);
            if j < p {
                assert(order[j] == k);
            } else if j > p {
                assert(order[j - 1] == k);
            }
        }
        if order.contains(k) {
            let j = order.index_of(k);
            if j < p {
                assert(now[j] == k);
            } else {
                assert(now[j + 1] == k);
            }
        }
        assert(now[p] == key);
    }
    assert forall|k: usize| #[trigger] now.to_set().contains(k) == seen.push(key).to_set().contains(
        k,
    ) by {
        lemma_push_contains(seen, key, k);
    }
    assert(now.to_set() =~= seen.push(key).to_set());
}

/// Whether each target is kept under its own number.
pub open spec fn keyed(targets: Map<usize, MonitorTarget>) -> bool {
    forall|k: usize| #[trigger] targets.contains_key(k) ==> targets[k].id == k
}

/// Targets stay under their own numbers when one of them is started or stopped,
/// and when ended tasks are forgotten.
pub proof fn law_targets_stay_keyed(
    targets: Map<usize, MonitorTarget>,
    id: usize,
    finished: bool,
    task: u64,
    ended: Seq<usize>,
)
    requires
        keyed(targets),
        targets.contains_key(id),
    ensures
        keyed(targets.insert(id, targets[id].started(finished, task))),
        keyed(targets.insert(id, targets[id].stopped(finished))),
        keyed(targets.remove(id)),
        keyed(all_reconciled(targets, ended)),
{
}

/// Where each target is kept under its own number, the overview shows no number
/// twice, and the larger numbers first.
pub proof fn law_overview_is_ordered(
    targets: Map<usize, MonitorTarget>,
    keys: Seq<usize>,
    infos: Seq<MonitorShowInfo>,
)
    requires
        shows_all(targets, keys, infos),
        keyed(targets),
    ensures
        forall|i: int, j: int| 0 <= i < j < infos.len() ==> infos[i].id > infos[j].id,
{
    assert forall|i: int, j: int| 0 <= i < j < infos.len() implies infos[i].id > infos[j].id by {
        assert(keys.to_set().contains(keys[i]));
        assert(keys.to_set().contains(keys[j]));
        assert(targets.contains_key(keys[i]) && targets.contains_key(keys[j]));
        assert(targets[keys[i]].shown_as(infos[i]));
        assert(targets[keys[j]].shown_as(infos[j]));
    }
}

/// The overview shows every target.
pub proof fn law_overview_is_complete(
    targets: Map<usize, MonitorTarget>,
    keys: Seq<usize>,
    infos: Seq<MonitorShowInfo>,
    k: usize,
)
    requires
        shows_all(targets, keys, infos),
        targets.contains_key(k),
    ensures
        exists|i: int| 0 <= i < infos.len() && targets[k].shown_as(#[trigger] infos[i]),
{
    assert(keys.to_set().contains(k));
    let i = keys.index_of(k);
    assert(targets[keys[i]].shown_as(infos[i]));
}

/// Stopping a target leaves the sampler of processes at work while another
/// program is watched.
pub proof fn law_sampler_serves_watched_programs(
    sampler: ProcessSampler,
    targets: Map<usize, MonitorTarget>,
    id: usize,
    saved: bool,
    finished: bool,
    other: usize,
)
    requires
        other != id,
        targets.contains_key(other),
        targets[other].monitor_enabled,
        targets[other].target_type_cfg is LocalProcess,
    ensures
        released(sampler, targets, id, saved, finished) == sampler,
{
    assert(targets.insert(id, targets[id].stopped(finished)).contains_key(other));
}

/// Every stop comes to an end.
pub proof fn law_stop_comes_to_an_end(run: StopRun, ended: bool)
    ensures
        run !is Finished ==> run.went_on(ended).steps_left() < run.steps_left(),
        run.steps_left() == 0 <==> run is Finished,
{
}

/// A task that does not end in time is ended by force, and the stop has failed.
pub proof fn law_unended_task_is_aborted(task: u64)
    ensures
        StopAction::Wait(task).first().unended((2 * STOP_POLLS + 1) as nat) == (StopRun::Abort {
            task,
            answer: false,
        }),
{
    lemma_unended(task, STOP_POLLS);
}

proof fn lemma_unended(task: u64, polls_left: u32)
    ensures
        StopRun::Look(TaskWait { task, polls_left }).unended((2 * polls_left + 1) as nat) == (
        StopRun::Abort { task, answer: false }),
    decreases polls_left,
{
    let run = StopRun::Look(TaskWait { task, polls_left });
    if polls_left > 0 {
        let fewer = (polls_left - 1) as u32;
        lemma_unended(task, fewer);
        let slept = StopRun::Sleep(TaskWait { task, polls_left: fewer });
        assert(run.went_on(false) == slept);
        assert(run.unended((2 * polls_left + 1) as nat) == slept.unended((2 * polls_left) as nat));
        assert(slept.unended((2 * polls_left) as nat) == StopRun::Look(
            TaskWait { task, polls_left: fewer },
        ).unended((2 * polls_left - 1) as nat));
    } else {
        assert(run.unended(1) == run.went_on(false).unended(0));
    }
}

/// Whether a stop is about the given task, or has been answered after its end: it
/// ended by itself, or was ended by force.
pub open spec fn stops_task(run: StopRun, task: u64) -> bool {
    match run {
        StopRun::StopSampler(_, action) => action == StopAction::Wait(task) || action
            == StopAction::Abort(task),
        StopRun::Abort { task: aborted, .. } => aborted == task,
        StopRun::Look(wait) => wait.task == task,
        StopRun::Sleep(wait) => wait.task == task,
        StopRun::Finished(_) => true,
    }
}

/// A stop does not lose sight of its task, and is answered only once the task was
/// seen to have ended or was ended by force.
pub proof fn law_stop_ends_its_task(run: StopRun, task: u64, ended: bool)
    requires
        stops_task(run, task),
    ensures
        stops_task(run.went_on(ended), task),
        run !is Finished && run.went_on(ended) is Finished ==> (run is Look && ended) || run
            is Abort,
{
}

/// The removal of a target that is there and can be switched off has stopped it
/// when it goes on to the deletion.
pub proof fn law_removal_stops_first(
    before: Map<usize, MonitorTarget>,
    after: Map<usize, MonitorTarget>,
    id: usize,
    finished: bool,
)
    requires
        before.contains_key(id),
        disabled(before, after, id, true, finished),
    ensures
        after.contains_key(id),
        after[id].task_handle is None,
        before[id].running_task(finished) is Some ==> !after[id].monitor_enabled,
        forall|k: usize| #[trigger]
            before.contains_key(k) && k != id ==> after.contains_key(k) && after[k] == before[k],
{
}

/// Whether all targets but one are the same.
pub open spec fn others_stay(
    before: Map<usize, MonitorTarget>,
    after: Map<usize, MonitorTarget>,
    id: usize,
) -> bool {
    forall|k: usize|
        k != id ==> #[trigger] after.contains_key(k) == before.contains_key(k) && (
        before.contains_key(k) ==> after[k] == before[k])
}

/// A target that is enabled runs: as the new task, with work of its kind and its own
/// configuration to do, unless a task of it runs already. Stopping it right after
/// that ends this very task. No other target is touched, and a target that is not
/// there stays away.
pub proof fn law_enabled_target_runs(
    before: Map<usize, MonitorTarget>,
    after: Map<usize, MonitorTarget>,
    sampler: ProcessSampler,
    id: usize,
    finished: bool,
    task: u64,
    res: EnableStep,
)
    requires
        enables(before, after, sampler, id, finished, task, res),
    ensures
        others_stay(before, after, id),
        !before.contains_key(id) ==> res is Missing && !after.contains_key(id),
        before.contains_key(id) ==> after.contains_key(id) && res is Running
            && after[id].target_type_cfg == before[id].target_type_cfg && after[id].alias
            == before[id].alias && after[id].performance_records
            == before[id].performance_records && after[id].console_outputs
            == before[id].console_outputs && after[id].control_signal == before[id].control_signal,
        before.contains_key(id) ==> (res->start_worker <==> sampler.worker is None),
        before.contains_key(id) && (before[id].task_handle is None || finished)
            ==> after[id].task_handle == Some(task) && after[id].monitor_enabled && match (
            res->job
        ) {
            Some(MonitorJob::LocalHost) => before[id].target_type_cfg
                == MonitorTargetType::LocalHost,
            Some(MonitorJob::LocalProcess(c)) => before[id].target_type_cfg
                == MonitorTargetType::LocalProcess(c),
            Some(MonitorJob::RemoteHost(c)) => before[id].target_type_cfg
                == MonitorTargetType::RemoteHost(c),
            None => false,
        },
        before.contains_key(id) && before[id].task_handle is Some && !finished ==> res->job is None
            && after[id] == before[id],
        before.contains_key(id) && (before[id].task_handle is None || finished) ==> stop_action(
            after[id],
            false,
        ) == (if before[id].target_type_cfg is RemoteHost {
            StopAction::Abort(task)
        } else {
            StopAction::Wait(task)
        }),
{
}

/// Stopping a target that is there, once that is stored, leaves it without a task;
/// it is switched off if it had one. What follows on its running task depends on its
/// kind: that of a remote host is ended by force at once, any other is looked at
/// two hundred times. Without a running task nothing follows.
pub proof fn law_disabled_target_is_stopped(
    sampler: ProcessSampler,
    before: Map<usize, MonitorTarget>,
    after: Map<usize, MonitorTarget>,
    id: usize,
    finished: bool,
)
    requires
        before.contains_key(id),
        disabled(before, after, id, true, finished),
    ensures
        others_stay(before, after, id),
        after.contains_key(id),
        after[id].task_handle is None,
        before[id].task_handle is Some ==> !after[id].monitor_enabled,
        before[id].task_handle is None ==> after[id] == before[id],
        after[id].target_type_cfg == before[id].target_type_cfg,
        after[id].alias == before[id].alias,
        after[id].performance_records == before[id].performance_records,
        after[id].console_outputs == before[id].console_outputs,
        after[id].control_signal == before[id].control_signal,
        ({
            let run = disable_run(sampler, before, id, true, finished);
            let then = match run {
                StopRun::StopSampler(_, action) => run.went_on(false),
                _ => run,
            };
            then == (if before[id].task_handle is None || finished {
                StopRun::Finished(true)
            } else if before[id].target_type_cfg is RemoteHost {
                StopRun::Abort { task: before[id].task_handle->0, answer: true }
            } else {
                StopRun::Look(TaskWait { task: before[id].task_handle->0, polls_left: 200 })
            })
        }),
{
}

/// A stop that was not stored, or of a target that is not there, fails and changes
/// nothing.
pub proof fn law_unstored_stop_changes_nothing(
    sampler: ProcessSampler,
    before: Map<usize, MonitorTarget>,
    after: Map<usize, MonitorTarget>,
    id: usize,
    saved: bool,
    finished: bool,
)
    requires
        disabled(before, after, id, saved, finished),
        !saved || !before.contains_key(id),
    ensures
        after == before,
        released(sampler, before, id, saved, finished) == sampler,
        disable_run(sampler, before, id, saved, finished) == StopRun::Finished(false),
{
}

/// The sampler of processes is stopped with the last program: when a target that
/// had a task was stopped, its worker ends exactly if no other target is a program
/// that is switched on, and it is ended before anything else.
pub proof fn law_sampler_stops_with_the_last_program(
    sampler: ProcessSampler,
    targets: Map<usize, MonitorTarget>,
    id: usize,
    finished: bool,
)
    requires
        targets.contains_key(id),
        targets[id].task_handle is Some,
    ensures
        ({
            let another = exists|k: usize|
                k != id && #[trigger] targets.contains_key(k) && targets[k].monitor_enabled
                    && targets[k].target_type_cfg is LocalProcess;
            &&& released(sampler, targets, id, true, finished).worker == (if another {
                sampler.worker
            } else {
                None
            })
            &&& released(sampler, targets, id, true, finished).table == sampler.table
            &&& released(sampler, targets, id, true, finished).interval_ms == sampler.interval_ms
            &&& !another && sampler.worker is Some ==> (disable_run(
                sampler,
                targets,
                id,
                true,
                finished,
            ) matches StopRun::StopSampler(worker, _) && worker == sampler.worker->0)
            &&& another || sampler.worker is None ==> !(disable_run(
                sampler,
                targets,
                id,
                true,
                finished,
            ) is StopSampler)
        }),
{
    let later = targets.insert(id, targets[id].stopped(finished));
    assert(later[id].monitor_enabled == false);
    if exists|k: usize|
        k != id && #[trigger] targets.contains_key(k) && targets[k].monitor_enabled
            && targets[k].target_type_cfg is LocalProcess {
        let k = choose|k: usize|
            k != id && #[trigger] targets.contains_key(k) && targets[k].monitor_enabled
                && targets[k].target_type_cfg is LocalProcess;
        assert(later.contains_key(k) && later[k] == targets[k]);
    } else if watches_program(later) {
        let k = choose|k: usize| #[trigger]
            later.contains_key(k) && later[k].monitor_enabled
                && later[k].target_type_cfg is LocalProcess;
        assert(targets.contains_key(k) && later[k] == targets[k]);
    }
}

/// A task that ends while it is waited for makes the stop succeed; one that does not
/// is waited for once more each time, and ended by force after the last time.
pub proof fn law_ending_task_is_waited_for(task: u64, polls_left: u32)
    ensures
        polls_left > 0 ==> StopRun::Look(TaskWait { task, polls_left }).went_on(true)
            == StopRun::Finished(true),
        polls_left > 0 ==> StopRun::Look(TaskWait { task, polls_left }).went_on(false).went_on(
            false,
        ) == StopRun::Look(TaskWait { task, polls_left: (polls_left - 1) as u32 }),
        polls_left > 0 ==> StopRun::Look(TaskWait { task, polls_left }).went_on(false) is Sleep,
        forall|ended: bool|
            (#[trigger] StopRun::Look(TaskWait { task, polls_left: 0 }).went_on(ended)) == (
            StopRun::Abort { task, answer: false }),
        forall|ended: bool, answer: bool|
            (#[trigger] StopRun::Abort { task, answer }.went_on(ended)) == StopRun::Finished(
                answer,
            ),
        STOP_POLL_MS == 50,
{
}

/// Changing the configuration of a target changes its alias and its configuration
/// and nothing else: its task, its records and whether it is switched on stay, and so
/// do the other targets. It is restarted exactly if it is switched on.
pub proof fn law_update_changes_the_configuration(
    before: Map<usize, MonitorTarget>,
    after: Map<usize, MonitorTarget>,
    form: MonitorTargetDto,
    saved: Result<(), String>,
    res: Result<ConfigUpdate, CommandError>,
)
    requires
        form.id is Some,
        updates(before, after, form, saved, res),
    ensures
        res is Ok <==> before.contains_key(form.id->0) && saved is Ok,
        res is Err ==> after == before,
        others_stay(before, after, form.id->0),
        after.contains_key(form.id->0) == before.contains_key(form.id->0),
        res matches Ok(update) ==> {
            let was = before[form.id->0];
            let now = after[form.id->0];
            &&& now.alias == form.alias
            &&& now.target_type_cfg == form.target_type
            &&& now.id == was.id
            &&& now.monitor_enabled == was.monitor_enabled
            &&& now.task_handle == was.task_handle
            &&& now.performance_records == was.performance_records
            &&& now.control_signal == was.control_signal
            &&& now.console_outputs == was.console_outputs
            &&& update.restart == (if was.monitor_enabled {
                Some(Restart::Stop(form.id->0))
            } else {
                None
            })
        },
        saved is Err && before.contains_key(form.id->0) ==> res == Err::<
            ConfigUpdate,
            CommandError,
        >(CommandError(saved->Err_0)),
{
}

/// A restart first takes the running task away and waits for its end like any stop
/// of a program; then the target is started as the new task, with the configuration
/// that it has by then.
pub proof fn law_restart_stops_and_starts(
    before: Map<usize, MonitorTarget>,
    after: Map<usize, MonitorTarget>,
    run: Restart,
    ended: bool,
    task: u64,
    res: Restart,
)
    requires
        restarts(before, after, run, ended, task, res),
    ensures
        match run {
            Restart::Stop(id) => {
                &&& others_stay(before, after, id)
                &&& before.contains_key(id) ==> after[id].task_handle is None
                &&& before.contains_key(id) ==> res == (if before[id].task_handle is None
                    || ended {
                    Restart::Start(id)
                } else {
                    Restart::Stopping(
                        id,
                        StopRun::Look(
                            TaskWait { task: before[id].task_handle->0, polls_left: 200 },
                        ),
                    )
                })
            },
            Restart::Stopping(id, stop) => {
                &&& after == before
                &&& res == (if stop.went_on(ended) is Finished {
                    Restart::Start(id)
                } else {
                    Restart::Stopping(id, stop.went_on(ended))
                })
            },
            Restart::Start(id) => {
                &&& others_stay(before, after, id)
                &&& before.contains_key(id) && (before[id].task_handle is None || ended) ==> {
                    &&& after[id].task_handle == Some(task)
                    &&& after[id].monitor_enabled
                    &&& after[id].target_type_cfg == before[id].target_type_cfg
                    &&& res == Restart::Started(Some(job_of(before[id].target_type_cfg)))
                }
                &&& before.contains_key(id) && before[id].task_handle is Some && !ended ==> after
                    == before && res == Restart::Started(None)
            },
            Restart::Started(_) => after == before && res == Restart::Started(None),
        },
{
    match run {
        Restart::Start(id) => {
            if before.contains_key(id) && before[id].task_handle is Some && !ended {
                assert(after =~= before);
            }
        },
        _ => {},
    }
}

/// A removal deletes a target only once its stop has come to an end, takes out that
/// target and no other, and only once the database has deleted it; it succeeds if
/// there was such a target and the deletion was committed.
pub proof fn law_removal_takes_the_target_out(
    before: Map<usize, MonitorTarget>,
    after: Map<usize, MonitorTarget>,
    step: Removal,
    event: RemovalEvent,
    res: Removal,
)
    requires
        removes(before, after, step, event, res),
    ensures
        match (step, event) {
            (Removal::Stopping(id, run), RemovalEvent::Stepped { ended }) => {
                &&& after == before
                &&& res == (if run.went_on(ended) is Finished {
                    Removal::Delete(id)
                } else {
                    Removal::Stopping(id, run.went_on(ended))
                })
            },
            (Removal::Delete(id), RemovalEvent::Stored(Ok(_))) => {
                &&& !after.contains_key(id)
                &&& others_stay(before, after, id)
                &&& res == Removal::Commit(before.contains_key(id))
            },
            (Removal::Commit(found), RemovalEvent::Stored(Ok(_))) => {
                &&& after == before
                &&& res matches Removal::Finished(answer) && (answer is Ok <==> found)
            },
            (Removal::Delete(_), RemovalEvent::Stored(Err(e))) => after == before && res
                == Removal::Finished(Err(CommandError(e))),
            (Removal::Commit(_), RemovalEvent::Stored(Err(e))) => after == before && res
                == Removal::Finished(Err(CommandError(e))),
            (_, _) => after == before && res == step,
        },
{
}

/// A control signal reaches its target and no other, in place of the one that was
/// pending.
pub proof fn law_signal_reaches_its_target(
    targets: Map<usize, MonitorTarget>,
    id: usize,
    signal: String,
)
    ensures
        others_stay(targets, signalled(targets, id, signal), id),
        signalled(targets, id, signal).contains_key(id) == targets.contains_key(id),
        targets.contains_key(id) ==> signalled(targets, id, signal)[id].control_signal@ == signal@
            && signalled(targets, id, signal)[id] == (MonitorTarget {
            control_signal: signal,
            ..targets[id]
        }),
{
}

/// Of several stored rows with the same number the last one that can be read counts;
/// without one there is none.
pub proof fn law_last_readable_row_counts(
    rows: Seq<Result<TargetRow, String>>,
    id: usize,
    k: int,
)
    requires
        -1 <= k < rows.len(),
        k >= 0 ==> rows[k] is Ok && rows[k]->Ok_0.id == id,
        forall|j: int|
            k < j < rows.len() ==> (#[trigger] rows[j]) is Err || rows[j]->Ok_0.id != id,
    ensures
        last_row(rows, id) == if k >= 0 {
            Some(rows[k]->Ok_0)
        } else {
            None
        },
    decreases rows.len(),
{
    if rows.len() > 0 && k < rows.len() - 1 {
        let before = rows.drop_last();
        assert(rows[rows.len() - 1] is Err || rows[rows.len() - 1]->Ok_0.id != id);
        assert forall|j: int| k < j < before.len() implies (#[trigger] before[j]) is Err
            || before[j]->Ok_0.id != id by {
            assert(before[j] == rows[j]);
        }
        law_last_readable_row_counts(before, id, k);
    }
}

/// A stored target comes back as it was stored, with nothing running, nothing
/// recorded and nothing pending.
pub proof fn law_stored_target_comes_back(row: TargetRow, target: MonitorTarget)
    requires
        row.becomes(target),
    ensures
        target.id == row.id,
        target.target_type_cfg == row.target_type,
        target.alias@ == row.alias@,
        target.monitor_enabled == row.monitor_enabled,
        target.task_handle is None,
        target.performance_records@ == Seq::<crate::monitor::MonitorRecord>::empty(),
        target.control_signal@ == Seq::<char>::empty(),
        target.console_outputs@ == Seq::<ConsoleMsg>::empty(),
{
}

/// Whether what the overview shows is one of the targets.
pub open spec fn is_shown_one(targets: Map<usize, MonitorTarget>, info: MonitorShowInfo) -> bool {
    exists|key: usize| #[trigger]
        targets.contains_key(key) && info.id == targets[key].id && info.alias@
            == targets[key].alias@ && info.target_type@ == targets[key].target_type_cfg.name()
}

/// The overview shows as many targets as there are, each by a target, the larger
/// numbers first; and all targets whose tasks have ended are switched off, and no
/// others.
pub proof fn law_overview_is_that_of_the_targets(
    before: Map<usize, MonitorTarget>,
    finished: Seq<usize>,
    keys: Seq<usize>,
    infos: Seq<MonitorShowInfo>,
    k: usize,
)
    requires
        before.dom().finite(),
        shows_all(all_reconciled(before, finished), keys, infos),
    ensures
        infos.len() == before.dom().len(),
        forall|i: int, j: int| 0 <= i < j < infos.len() ==> infos[i].id >= infos[j].id,
        forall|i: int| 0 <= i < infos.len() ==> is_shown_one(before, #[trigger] infos[i]),
        before.contains_key(k) && before[k].task_handle is Some && finished.contains(k) ==> {
            let now = all_reconciled(before, finished)[k];
            now.task_handle is None && !now.monitor_enabled
        },
        before.contains_key(k) && !(before[k].task_handle is Some && finished.contains(k))
            ==> all_reconciled(before, finished)[k] == before[k],
        all_reconciled(before, finished).dom() == before.dom(),
{
    let after = all_reconciled(before, finished);
    assert(after.dom() =~= before.dom());
    keys.unique_seq_to_set();
    assert forall|i: int| 0 <= i < infos.len() implies is_shown_one(before, #[trigger] infos[i]) by {
        let key = keys[i];
        assert(keys.to_set().contains(key));
        assert(after[key].shown_as(infos[i]));
        assert(before.contains_key(key));
    }
}

/// The targets that are started with the application are those that are switched
/// on, each once, by the numbers that they carry.
pub proof fn law_active_targets_are_those_switched_on(
    targets: Map<usize, MonitorTarget>,
    keys: Seq<usize>,
    ids: Seq<usize>,
    k: usize,
)
    requires
        lists_active(targets, keys, ids),
        keyed(targets),
    ensures
        ids.contains(k) <==> targets.contains_key(k) && targets[k].monitor_enabled,
        ids.no_duplicates(),
{
    assert(ids =~= keys) by {
        assert forall|i: int| 0 <= i < keys.len() implies ids[i] == keys[i] by {
            assert(keys.contains(keys[i]));
        }
    }
    assert(keys.contains(k) <==> targets.contains_key(k) && targets[k].monitor_enabled);
}

} // verus!
