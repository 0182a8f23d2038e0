use vstd::prelude::*;
use crate::reconcile::{reconcile_os_state, reconcile_plan};
use crate::task::{Action, IoTask, TaskResult, TaskResultView, TaskView, tasks_view};
use crate::text::{eq_ignore_ascii_case, str_eq_ignore_ascii_case};
use crate::types::{AppConfig, FolderExeMapping, MappingView};

verus! {

/// The application's state: the configuration in memory and the status line.
#[derive(Debug)]
pub struct AppState {
    pub config: AppConfig,
    pub status_msg: String,
}

/// Mathematical view of an [`AppState`].
pub struct StateView {
    pub config: Seq<MappingView>,
    pub status: Seq<char>,
}

impl View for AppState {
    type V = StateView;

    open spec fn view(&self) -> StateView {
        StateView { config: self.config@, status: self.status_msg@ }
    }
}

/// The status a fresh state shows.
pub open spec fn ready_status() -> Seq<char> {
    "就绪"@
}

/// The status after a configuration changed on disk was taken over.
pub open spec fn synced_status() -> Seq<char> {
    "配置已外部修改，正在自动同步系统图标..."@
}

/// The status when a failed operation reports no message.
pub open spec fn unknown_error_status() -> Seq<char> {
    "未知错误"@
}

/// Index `i` holds the first mapping whose folder matches `folder`, ignoring ASCII case.
pub open spec fn is_first_match(cfg: Seq<MappingView>, folder: Seq<char>, i: int) -> bool {
    &&& 0 <= i < cfg.len()
    &&& eq_ignore_ascii_case(cfg[i].folder_path, folder)
    &&& forall|j: int| 0 <= j < i ==> !eq_ignore_ascii_case(#[trigger] cfg[j].folder_path, folder)
}

/// Some mapping's folder matches `folder`, ignoring ASCII case.
pub open spec fn has_match(cfg: Seq<MappingView>, folder: Seq<char>) -> bool {
    exists|i: int| 0 <= i < cfg.len() && eq_ignore_ascii_case(#[trigger] cfg[i].folder_path, folder)
}

/// A result changes the configuration when it reports success for a folder that
/// some mapping holds.
pub open spec fn result_changes_config(cfg: Seq<MappingView>, r: TaskResultView) -> bool {
    r.success && has_match(cfg, r.folder)
}

/// The configuration after a result: on success, the first mapping of the
/// folder is marked applied (after an apply) or not (after a restore).
pub open spec fn config_after_result(cfg: Seq<MappingView>, r: TaskResultView) -> Seq<MappingView> {
    if result_changes_config(cfg, r) {
        let i = choose|i: int| is_first_match(cfg, r.folder, i);
        cfg.update(
            i,
            MappingView {
                folder_path: cfg[i].folder_path,
                exe_path: cfg[i].exe_path,
                icon_state: r.action == Action::Apply,
            },
        )
    } else {
        cfg
    }
}

/// The status line after a result: the success message for the action, or the
/// reported error.
pub open spec fn status_after_result(r: TaskResultView) -> Seq<char> {
    if r.success {
        match r.action {
            Action::Apply => "操作成功: "@ + r.folder,
            Action::Restore => "已恢复默认: "@ + r.folder,
        }
    } else {
        match r.msg {
            Some(m) => m,
            None => unknown_error_status(),
        }
    }
}

pub open spec fn state_after_result(st: StateView, r: TaskResultView) -> StateView {
    StateView { config: config_after_result(st.config, r), status: status_after_result(r) }
}

/// The state after a configuration read from disk: a configuration that differs
/// replaces the one in memory and shows the sync status.
pub open spec fn state_after_update(st: StateView, c: Seq<MappingView>) -> StateView {
    if st.config == c {
        st
    } else {
        StateView { config: c, status: synced_status() }
    }
}

/// The tasks that a configuration read from disk asks for.
pub open spec fn tasks_after_update(st: StateView, c: Seq<MappingView>) -> Seq<TaskView> {
    if st.config == c {
        Seq::empty()
    } else {
        reconcile_plan(st.config, c)
    }
}

/// The state after the results, in order.
pub open spec fn fold_results(st: StateView, rs: Seq<TaskResultView>) -> StateView
    decreases rs.len(),
{
    if rs.len() == 0 {
        st
    } else {
        state_after_result(fold_results(st, rs.drop_last()), rs.last())
    }
}

/// Whether some result, applied in order, changed the configuration.
pub open spec fn results_change_config(st: StateView, rs: Seq<TaskResultView>) -> bool
    decreases rs.len(),
{
    if rs.len() == 0 {
        false
    } else {
        results_change_config(st, rs.drop_last()) || result_changes_config(
            fold_results(st, rs.drop_last()).config,
            rs.last(),
        )
    }
}

/// The state after the configurations read from disk, in order.
pub open spec fn fold_updates(st: StateView, us: Seq<Seq<MappingView>>) -> StateView
    decreases us.len(),
{
    if us.len() == 0 {
        st
    } else {
        state_after_update(fold_updates(st, us.drop_last()), us.last())
    }
}

/// The tasks that the configurations read from disk ask for, in order.
pub open spec fn fold_update_tasks(st: StateView, us: Seq<Seq<MappingView>>) -> Seq<TaskView>
    decreases us.len(),
{
    if us.len() == 0 {
        Seq::empty()
    } else {
        fold_update_tasks(st, us.drop_last()) + tasks_after_update(
            fold_updates(st, us.drop_last()),
            us.last(),
        )
    }
}

pub open spec fn results_view(rs: Seq<TaskResult>) -> Seq<TaskResultView> {
    rs.map_values(|r: TaskResult| r@)
}

pub open spec fn configs_view(cs: Seq<AppConfig>) -> Seq<Seq<MappingView>> {
    cs.map_values(|c: AppConfig| c@)
}

/// A row operation chosen in the mapping list, carried out after the list is drawn.
#[derive(Debug)]
pub enum PendingOp {
    /// Apply the icon again (folder, executable).
    ApplyRow(String, String),
    /// Restore the default icon (folder, executable).
    RestoreRow(String, String),
    /// Remove the mapping at this index.
    RemoveRow(usize),
}

/// The label of a row's toggle button.
pub fn toggle_label(applied: bool) -> (label: &'static str)
    ensures
        label@ == (if applied { "↺ 恢复默认"@ } else { "▶ 重新应用"@ }),
{
    if applied {
        "↺ 恢复默认"
    } else {
        "▶ 重新应用"
    }
}

/// What a row's toggle button asks for: an applied mapping is restored, any
/// other is applied again.
pub fn toggle_op(mapping: &FolderExeMapping) -> (op: PendingOp)
    ensures
        mapping.icon_state ==> (op matches PendingOp::RestoreRow(f, e) && f@ == mapping.folder_path@
            && e@ == mapping.exe_path@),
        !mapping.icon_state ==> (op matches PendingOp::ApplyRow(f, e) && f@ == mapping.folder_path@
            && e@ == mapping.exe_path@),
{
    if mapping.icon_state {
        PendingOp::RestoreRow(mapping.folder_path.clone(), mapping.exe_path.clone())
    } else {
        PendingOp::ApplyRow(mapping.folder_path.clone(), mapping.exe_path.clone())
    }
}

/// The status after the inputs were cleared, by whether there was anything to clear.
pub open spec fn cleared_status(had_input: bool) -> Seq<char> {
    if had_input {
        "已经清空输入框"@
    } else {
        "输入框是空的，不需要清空"@
    }
}

/// A string made of a literal prefix and a suffix.
fn prefixed(prefix: &str, suffix: &str) -> (res: String)
    ensures
        res@ == prefix@ + suffix@,
{
    let mut s = String::from_str(prefix);
    s.append(suffix);
    s
}

impl AppState {
    /// A state holding `config`, showing the ready status.
    pub fn new(config: AppConfig) -> (res: AppState)
        ensures
            res@ == (StateView { config: config@, status: ready_status() }),
    {
        AppState { config, status_msg: String::from_str("就绪") }
    }

    /// Folds in the report of a finished background operation; returns whether
    /// the configuration changed (and so should be saved).
    pub fn on_task_result(&mut self, res: &TaskResult) -> (changed: bool)
        ensures
            final(self)@ == state_after_result(old(self)@, res@),
            changed == result_changes_config(old(self)@.config, res@),
    {
        let ghost cfg = self.config@;
        let mut changed = false;
        if res.success {
            let state = res.action == Action::Apply;
            let n = self.config.mappings.len();
            let mut i: usize = 0;
            let mut found = false;
            while i < n && !found
                invariant
                    n == self.config.mappings@.len(),
                    cfg == self.config@,
                    cfg.len() == n,
                    i <= n,
                    found ==> i < n && is_first_match(cfg, res.folder@, i as int),
                    !found ==> forall|j: int|
                        0 <= j < i ==> !eq_ignore_ascii_case(#[trigger] cfg[j].folder_path, res.folder@),
                decreases n - i + (if found { 0int } else { 1int }),
            {
                assert(cfg[i as int] == self.config.mappings@[i as int]@);
                if str_eq_ignore_ascii_case(self.config.mappings[i].folder_path.as_str(), res.folder.as_str()) {
                    found = true;
                } else {
                    i = i + 1;
                }
            }
            if found {
                let m = &self.config.mappings[i];
                let updated = FolderExeMapping {
                    folder_path: m.folder_path.clone(),
                    exe_path: m.exe_path.clone(),
                    icon_state: state,
                };
                self.config.mappings.set(i, updated);
                changed = true;
                proof {
                    assert(has_match(cfg, res.folder@));
                    let c = choose|c: int| is_first_match(cfg, res.folder@, c);
                    if c < i {
                        assert(!eq_ignore_ascii_case(cfg[c].folder_path, res.folder@));
                    }
                    if i < c {
                        assert(!eq_ignore_ascii_case(cfg[i as int].folder_path, res.folder@));
                    }
                    assert(c == i);
                    assert(self.config@ =~= config_after_result(cfg, res@));
                }
            } else {
                proof {
                    assert(!has_match(cfg, res.folder@));
                }
            }
            self.status_msg = match res.action {
                Action::Apply => prefixed("操作成功: ", res.folder.as_str()),
                Action::Restore => prefixed("已恢复默认: ", res.folder.as_str()),
            };
        } else {
            self.status_msg = match &res.msg {
                Some(m) => m.clone(),
                None => String::from_str("未知错误"),
            };
        }
        changed
    }

    /// Takes over a configuration read from disk: when it differs from the one in
    /// memory, it replaces it and the tasks that bring the folders from the old
    /// configuration to the new one are returned; otherwise nothing happens.
    pub fn on_config_update(&mut self, new_config: &AppConfig) -> (tasks: Vec<IoTask>)
        ensures
            final(self)@ == state_after_update(old(self)@, new_config@),
            tasks_view(tasks@) == tasks_after_update(old(self)@, new_config@),
    {
        if self.config.same_as(new_config) {
            let tasks: Vec<IoTask> = Vec::new();
            assert(tasks_view(tasks@) =~= Seq::<TaskView>::empty());
            tasks
        } else {
            let tasks = reconcile_os_state(&self.config, new_config);
            self.config = new_config.duplicate();
            self.status_msg = String::from_str("配置已外部修改，正在自动同步系统图标...");
            tasks
        }
    }

    /// One round of background work: first the reports of finished operations,
    /// in order, then the configurations read from disk, in order. Returns whether
    /// a report changed the configuration (so that it should be saved) and the
    /// operations that the configurations read from disk ask for.
    pub fn tick(&mut self, results: Vec<TaskResult>, updates: Vec<AppConfig>) -> (res: (bool, Vec<IoTask>))
        ensures
            final(self)@ == fold_updates(fold_results(old(self)@, results_view(results@)), configs_view(updates@)),
            res.0 == results_change_config(old(self)@, results_view(results@)),
            res.0 == crate::app_laws::some_report_matches(old(self)@.config, results_view(results@)),
            tasks_view(res.1@) == fold_update_tasks(
                fold_results(old(self)@, results_view(results@)),
                configs_view(updates@),
            ),
    {
        let ghost st0 = self@;
        let ghost rs = results_view(results@);
        let ghost us = configs_view(updates@);
        let mut config_changed = false;
        let nr = results.len();
        for i in 0..nr
            invariant
                nr == results@.len(),
                rs == results_view(results@),
                self@ == fold_results(st0, rs.subrange(0, i as int)),
                config_changed == results_change_config(st0, rs.subrange(0, i as int)),
        {
            proof {
                let pre = rs.subrange(0, i as int);
                let post = rs.subrange(0, i + 1);
                assert(post.drop_last() =~= pre);
                assert(post.last() == results@[i as int]@);
            }
            let changed = self.on_task_result(&results[i]);
            config_changed = config_changed || changed;
        }
        assert(rs.subrange(0, nr as int) =~= rs);
        proof {
            crate::app_laws::law_round_changes_config_iff_a_report_matches(st0, rs);
        }
        let ghost st1 = self@;
        let mut tasks: Vec<IoTask> = Vec::new();
        let nu = updates.len();
        for i in 0..nu
            invariant
                nu == updates@.len(),
                us == configs_view(updates@),
                self@ == fold_updates(st1, us.subrange(0, i as int)),
                tasks_view(tasks@) == fold_update_tasks(st1, us.subrange(0, i as int)),
        {
            proof {
                let pre = us.subrange(0, i as int);
                let post = us.subrange(0, i + 1);
                assert(post.drop_last() =~= pre);
                assert(post.last() == updates@[i as int]@);
            }
            let ghost before = tasks_view(tasks@);
            let mut more = self.on_config_update(&updates[i]);
            let ghost added = tasks_view(more@);
            tasks.append(&mut more);
            assert(tasks_view(tasks@) =~= before + added);
        }
        assert(us.subrange(0, nu as int) =~= us);
        (config_changed, tasks)
    }

    /// Adds the mapping typed into the two input fields, when both are filled
    /// in: the mapping is appended as applied, both inputs are emptied and the
    /// apply operation for it is returned (the configuration should then be
    /// saved). With an empty input nothing changes.
    pub fn submit_new_mapping(&mut self, new_folder: &mut String, new_exe: &mut String) -> (task: Option<IoTask>)
        ensures
            old(new_folder)@.len() > 0 && old(new_exe)@.len() > 0 ==> {
                &&& final(self)@.config == old(self)@.config.push(
                    MappingView { folder_path: old(new_folder)@, exe_path: old(new_exe)@, icon_state: true },
                )
                &&& final(self)@.status == old(self)@.status
                &&& task matches Some(t) && t@ == (TaskView {
                    action: Action::Apply,
                    folder: old(new_folder)@,
                    exe: old(new_exe)@,
                })
                &&& final(new_folder)@.len() == 0
                &&& final(new_exe)@.len() == 0
            },
            !(old(new_folder)@.len() > 0 && old(new_exe)@.len() > 0) ==> {
                &&& final(self)@ == old(self)@
                &&& task is None
                &&& final(new_folder)@ == old(new_folder)@
                &&& final(new_exe)@ == old(new_exe)@
            },
    {
        if !new_folder.as_str().is_empty() && !new_exe.as_str().is_empty() {
            let m = FolderExeMapping {
                folder_path: new_folder.clone(),
                exe_path: new_exe.clone(),
                icon_state: true,
            };
            let ghost before = self.config@;
            self.config.mappings.push(m);
            assert(self.config@ =~= before.push(
                MappingView { folder_path: new_folder@, exe_path: new_exe@, icon_state: true },
            ));
            let task = IoTask::new(Action::Apply, new_folder.clone(), new_exe.clone());
            *new_folder = String::new();
            *new_exe = String::new();
            Some(task)
        } else {
            None
        }
    }

    /// Empties the two input fields and says in the status whether there was
    /// anything to clear.
    pub fn clear_inputs(&mut self, new_folder: &mut String, new_exe: &mut String)
        ensures
            final(self)@.config == old(self)@.config,
            final(self)@.status == cleared_status(old(new_folder)@.len() > 0 || old(new_exe)@.len() > 0),
            final(new_folder)@.len() == 0,
            final(new_exe)@.len() == 0,
    {
        if !new_folder.as_str().is_empty() || !new_exe.as_str().is_empty() {
            self.status_msg = String::from_str("已经清空输入框");
            *new_folder = String::new();
            *new_exe = String::new();
        } else {
            self.status_msg = String::from_str("输入框是空的，不需要清空");
        }
    }

    /// Carries out a row operation: apply and restore become the matching
    /// operation; removing a row drops that mapping and restores its folder. The
    /// flag says whether the configuration changed (and should be saved).
    pub fn apply_pending_op(&mut self, op: PendingOp) -> (res: (IoTask, bool))
        requires
            op matches PendingOp::RemoveRow(i) ==> i < old(self).config@.len(),
        ensures
            match op {
                PendingOp::ApplyRow(f, e) => {
                    &&& res.0@ == (TaskView { action: Action::Apply, folder: f@, exe: e@ })
                    &&& !res.1
                    &&& final(self)@ == old(self)@
                },
                PendingOp::RestoreRow(f, e) => {
                    &&& res.0@ == (TaskView { action: Action::Restore, folder: f@, exe: e@ })
                    &&& !res.1
                    &&& final(self)@ == old(self)@
                },
                PendingOp::RemoveRow(i) => {
                    &&& res.0@ == (TaskView {
                        action: Action::Restore,
                        folder: old(self)@.config[i as int].folder_path,
                        exe: old(self)@.config[i as int].exe_path,
                    })
                    &&& res.1
                    &&& final(self)@.config == old(self)@.config.remove(i as int)
                    &&& final(self)@.status == old(self)@.status
                },
            },
    {
        match op {
            PendingOp::ApplyRow(folder, exe) => (IoTask::new(Action::Apply, folder, exe), false),
            PendingOp::RestoreRow(folder, exe) => (IoTask::new(Action::Restore, folder, exe), false),
            PendingOp::RemoveRow(idx) => {
                let ghost before = self.config@;
                let mapping = self.config.mappings.remove(idx);
                assert(self.config@ =~= before.remove(idx as int));
                (IoTask::new(Action::Restore, mapping.folder_path, mapping.exe_path), true)
            },
        }
    }
}

} // verus!
