use folder_icon_changer::app_state::{toggle_label, toggle_op, AppState, PendingOp};
use folder_icon_changer::task::{Action, IoTask, TaskResult};
use folder_icon_changer::types::{AppConfig, FolderExeMapping};

fn m(folder: &str, exe: &str, on: bool) -> FolderExeMapping {
    FolderExeMapping { folder_path: folder.to_string(), exe_path: exe.to_string(), icon_state: on }
}

fn cfg(ms: Vec<FolderExeMapping>) -> AppConfig {
    AppConfig { mappings: ms }
}

fn ok(action: Action, folder: &str) -> TaskResult {
    TaskResult { folder: folder.to_string(), exe: "x.exe".to_string(), action, success: true, msg: None }
}

fn summary(tasks: &[IoTask]) -> Vec<(Action, String, String)> {
    tasks.iter().map(|t| (t.action, t.folder.clone(), t.exe.clone())).collect()
}

#[test]
fn new_state_is_ready() {
    let st = AppState::new(cfg(vec![m("C:\\a", "a.exe", true)]));
    assert_eq!(st.status_msg, "就绪");
    assert_eq!(st.config.mappings.len(), 1);
}

#[test]
fn successful_apply_marks_first_match_ignoring_ascii_case() {
    let mut st = AppState::new(cfg(vec![
        m("C:\\Other", "o.exe", false),
        m("C:\\Games", "g.exe", false),
        m("c:\\games", "h.exe", false),
    ]));
    let changed = st.on_task_result(&ok(Action::Apply, "c:\\GAMES"));
    assert!(changed);
    assert!(!st.config.mappings[0].icon_state);
    assert!(st.config.mappings[1].icon_state);
    assert!(!st.config.mappings[2].icon_state);
    assert_eq!(st.status_msg, "操作成功: c:\\GAMES");
}

#[test]
fn successful_restore_clears_state() {
    let mut st = AppState::new(cfg(vec![m("D:\\x", "x.exe", true)]));
    assert!(st.on_task_result(&ok(Action::Restore, "D:\\X")));
    assert!(!st.config.mappings[0].icon_state);
    assert_eq!(st.status_msg, "已恢复默认: D:\\X");
}

#[test]
fn non_ascii_case_does_not_match() {
    let mut st = AppState::new(cfg(vec![m("C:\\Ä", "x.exe", false)]));
    let changed = st.on_task_result(&ok(Action::Apply, "C:\\ä"));
    assert!(!changed);
    assert!(!st.config.mappings[0].icon_state);
    assert_eq!(st.status_msg, "操作成功: C:\\ä");
}

#[test]
fn failed_result_shows_message_or_unknown_error() {
    let mut st = AppState::new(cfg(vec![m("C:\\a", "a.exe", false)]));
    let r = TaskResult {
        folder: "C:\\a".to_string(),
        exe: "a.exe".to_string(),
        action: Action::Apply,
        success: false,
        msg: Some("写入 desktop.ini 失败: denied".to_string()),
    };
    assert!(!st.on_task_result(&r));
    assert_eq!(st.status_msg, "写入 desktop.ini 失败: denied");
    assert!(!st.config.mappings[0].icon_state);
    let r2 = TaskResult { msg: None, ..r };
    assert!(!st.on_task_result(&r2));
    assert_eq!(st.status_msg, "未知错误");
}

#[test]
fn equal_update_is_ignored() {
    let mut st = AppState::new(cfg(vec![m("C:\\a", "a.exe", true)]));
    let tasks = st.on_config_update(&cfg(vec![m("C:\\a", "a.exe", true)]));
    assert!(tasks.is_empty());
    assert_eq!(st.status_msg, "就绪");
}

#[test]
fn differing_update_replaces_config_and_plans_tasks() {
    let mut st = AppState::new(cfg(vec![m("C:\\a", "a.exe", true)]));
    let tasks = st.on_config_update(&cfg(vec![m("C:\\a", "a.exe", false), m("C:\\b", "b.exe", true)]));
    assert_eq!(
        summary(&tasks),
        vec![
            (Action::Restore, "C:\\a".to_string(), "a.exe".to_string()),
            (Action::Apply, "C:\\b".to_string(), "b.exe".to_string()),
        ]
    );
    assert_eq!(st.config.mappings.len(), 2);
    assert_eq!(st.status_msg, "配置已外部修改，正在自动同步系统图标...");
}

#[test]
fn tick_folds_results_then_updates() {
    let mut st = AppState::new(cfg(vec![m("C:\\a", "a.exe", false)]));
    let (changed, tasks) = st.tick(
        vec![ok(Action::Apply, "C:\\a"), ok(Action::Apply, "C:\\missing")],
        vec![
            cfg(vec![m("C:\\a", "a.exe", true)]),
            cfg(vec![m("C:\\a", "a.exe", true), m("C:\\c", "c.exe", true)]),
        ],
    );
    assert!(changed);
    // The first update equals the configuration after the result: nothing to do.
    assert_eq!(summary(&tasks), vec![(Action::Apply, "C:\\c".to_string(), "c.exe".to_string())]);
    assert_eq!(st.config.mappings.len(), 2);
    assert_eq!(st.status_msg, "配置已外部修改，正在自动同步系统图标...");
}

#[test]
fn tick_without_work_changes_nothing() {
    let mut st = AppState::new(cfg(vec![m("C:\\a", "a.exe", false)]));
    let (changed, tasks) = st.tick(vec![], vec![]);
    assert!(!changed);
    assert!(tasks.is_empty());
    assert_eq!(st.status_msg, "就绪");
}

#[test]
fn tick_last_update_wins() {
    let mut st = AppState::new(cfg(vec![]));
    let (_, tasks) = st.tick(
        vec![],
        vec![cfg(vec![m("C:\\a", "a.exe", true)]), cfg(vec![m("C:\\b", "b.exe", false)])],
    );
    assert_eq!(st.config.mappings.len(), 1);
    assert_eq!(st.config.mappings[0].folder_path, "C:\\b");
    assert_eq!(
        summary(&tasks),
        vec![
            (Action::Apply, "C:\\a".to_string(), "a.exe".to_string()),
            (Action::Restore, "C:\\a".to_string(), "a.exe".to_string()),
        ]
    );
}

#[test]
fn submit_new_mapping_needs_both_inputs() {
    let mut st = AppState::new(cfg(vec![]));
    let mut folder = "C:\\new".to_string();
    let mut exe = String::new();
    assert!(st.submit_new_mapping(&mut folder, &mut exe).is_none());
    assert_eq!(folder, "C:\\new");
    assert!(st.config.mappings.is_empty());
    exe = "n.exe".to_string();
    let t = st.submit_new_mapping(&mut folder, &mut exe).unwrap();
    assert_eq!((t.action, t.folder.as_str(), t.exe.as_str()), (Action::Apply, "C:\\new", "n.exe"));
    assert_eq!(st.config.mappings.len(), 1);
    assert!(st.config.mappings[0].icon_state);
    assert_eq!(st.config.mappings[0].folder_path, "C:\\new");
    assert!(folder.is_empty() && exe.is_empty());
}

#[test]
fn clear_inputs_reports_whether_anything_was_cleared() {
    let mut st = AppState::new(cfg(vec![]));
    let mut folder = String::new();
    let mut exe = "x".to_string();
    st.clear_inputs(&mut folder, &mut exe);
    assert_eq!(st.status_msg, "已经清空输入框");
    assert!(exe.is_empty());
    st.clear_inputs(&mut folder, &mut exe);
    assert_eq!(st.status_msg, "输入框是空的，不需要清空");
}

#[test]
fn row_operations() {
    assert_eq!(toggle_label(true), "↺ 恢复默认");
    assert_eq!(toggle_label(false), "▶ 重新应用");
    let on = m("C:\\a", "a.exe", true);
    assert!(matches!(toggle_op(&on), PendingOp::RestoreRow(f, e) if f == "C:\\a" && e == "a.exe"));
    let off = m("C:\\b", "b.exe", false);
    assert!(matches!(toggle_op(&off), PendingOp::ApplyRow(f, e) if f == "C:\\b" && e == "b.exe"));

    let mut st = AppState::new(cfg(vec![on, off]));
    let (t, save) = st.apply_pending_op(PendingOp::ApplyRow("C:\\b".to_string(), "b.exe".to_string()));
    assert_eq!((t.action, save), (Action::Apply, false));
    assert_eq!(st.config.mappings.len(), 2);
    let (t, save) = st.apply_pending_op(PendingOp::RemoveRow(0));
    assert!(save);
    assert_eq!((t.action, t.folder.as_str(), t.exe.as_str()), (Action::Restore, "C:\\a", "a.exe"));
    assert_eq!(st.config.mappings.len(), 1);
    assert_eq!(st.config.mappings[0].folder_path, "C:\\b");
}

#[test]
fn echoed_configs_are_quiet() {
    let c = || cfg(vec![m("C:\\a", "a.exe", true), m("C:\\b", "b.exe", false)]);
    let mut st = AppState::new(c());
    let (changed, tasks) = st.tick(vec![], vec![c(), c(), c()]);
    assert!(!changed);
    assert!(tasks.is_empty());
    assert_eq!(st.status_msg, "就绪");
}

#[test]
fn results_only_change_icon_states() {
    let mut st = AppState::new(cfg(vec![m("C:\\a", "a.exe", false), m("C:\\b", "b.exe", true)]));
    let (changed, _) = st.tick(
        vec![ok(Action::Apply, "C:\\A"), ok(Action::Restore, "c:\\b"), ok(Action::Apply, "C:\\zzz")],
        vec![],
    );
    assert!(changed);
    let got: Vec<(String, String, bool)> = st
        .config
        .mappings
        .iter()
        .map(|x| (x.folder_path.clone(), x.exe_path.clone(), x.icon_state))
        .collect();
    assert_eq!(
        got,
        vec![
            ("C:\\a".to_string(), "a.exe".to_string(), true),
            ("C:\\b".to_string(), "b.exe".to_string(), false),
        ]
    );
    assert_eq!(st.status_msg, "操作成功: C:\\zzz");
}
