use folder_icon_changer::reconcile::reconcile_os_state;
use folder_icon_changer::task::{Action, IoTask};
use folder_icon_changer::types::{AppConfig, FolderExeMapping};

fn m(folder: &str, exe: &str, on: bool) -> FolderExeMapping {
    FolderExeMapping { folder_path: folder.to_string(), exe_path: exe.to_string(), icon_state: on }
}

fn cfg(ms: Vec<FolderExeMapping>) -> AppConfig {
    AppConfig { mappings: ms }
}

fn summary(tasks: &[IoTask]) -> Vec<(Action, String, String)> {
    tasks.iter().map(|t| (t.action, t.folder.clone(), t.exe.clone())).collect()
}

fn t(a: Action, f: &str, e: &str) -> (Action, String, String) {
    (a, f.to_string(), e.to_string())
}

#[test]
fn same_config_plans_nothing() {
    let c = cfg(vec![m("C:\\a", "a.exe", true), m("C:\\b", "b.exe", false)]);
    assert!(reconcile_os_state(&c, &c.duplicate()).is_empty());
}

#[test]
fn added_mapping_on_is_applied_off_is_not() {
    let old = cfg(vec![]);
    let new = cfg(vec![m("C:\\a", "a.exe", true), m("C:\\b", "b.exe", false)]);
    assert_eq!(summary(&reconcile_os_state(&old, &new)), vec![t(Action::Apply, "C:\\a", "a.exe")]);
}

#[test]
fn removed_mapping_on_is_restored_off_is_not() {
    let old = cfg(vec![m("C:\\a", "a.exe", true), m("C:\\b", "b.exe", false)]);
    let new = cfg(vec![]);
    assert_eq!(summary(&reconcile_os_state(&old, &new)), vec![t(Action::Restore, "C:\\a", "a.exe")]);
}

#[test]
fn changed_state_or_exe_follows_new_mapping() {
    let old = cfg(vec![m("C:\\a", "a.exe", true), m("C:\\b", "b.exe", false), m("C:\\c", "c.exe", true)]);
    let new = cfg(vec![m("C:\\a", "a.exe", false), m("C:\\b", "b.exe", true), m("C:\\c", "d.exe", true)]);
    assert_eq!(
        summary(&reconcile_os_state(&old, &new)),
        vec![
            t(Action::Restore, "C:\\a", "a.exe"),
            t(Action::Apply, "C:\\b", "b.exe"),
            t(Action::Apply, "C:\\c", "d.exe"),
        ]
    );
}

#[test]
fn changed_exe_of_a_mapping_that_is_off_restores() {
    let old = cfg(vec![m("C:\\a", "a.exe", false)]);
    let new = cfg(vec![m("C:\\a", "b.exe", false)]);
    assert_eq!(summary(&reconcile_os_state(&old, &new)), vec![t(Action::Restore, "C:\\a", "b.exe")]);
}

#[test]
fn folders_compare_by_unicode_lowercase() {
    // Same key once lowercased (including the non-ASCII letter): nothing to do.
    let old = cfg(vec![m("C:\\ÄPPS", "a.exe", true)]);
    let new = cfg(vec![m("c:\\äpps", "a.exe", true)]);
    assert!(reconcile_os_state(&old, &new).is_empty());
}

#[test]
fn last_mapping_of_a_folder_counts() {
    let old = cfg(vec![m("C:\\a", "a.exe", true)]);
    let new = cfg(vec![m("C:\\a", "a.exe", false), m("c:\\A", "a.exe", true)]);
    assert!(reconcile_os_state(&old, &new).is_empty());
    let new2 = cfg(vec![m("c:\\A", "a.exe", true), m("C:\\a", "x.exe", true)]);
    assert_eq!(summary(&reconcile_os_state(&old, &new2)), vec![t(Action::Apply, "C:\\a", "x.exe")]);
}

#[test]
fn renamed_folder_restores_old_and_applies_new() {
    let old = cfg(vec![m("C:\\a", "a.exe", true)]);
    let new = cfg(vec![m("C:\\b", "a.exe", true)]);
    assert_eq!(
        summary(&reconcile_os_state(&old, &new)),
        vec![t(Action::Apply, "C:\\b", "a.exe"), t(Action::Restore, "C:\\a", "a.exe")]
    );
}

#[test]
fn config_equality_and_copy() {
    let c = cfg(vec![m("C:\\a", "a.exe", true)]);
    let d = c.duplicate();
    assert!(c.same_as(&d));
    assert!(!c.same_as(&cfg(vec![m("C:\\a", "a.exe", false)])));
    assert!(!c.same_as(&AppConfig::new()));
}

/// The icons a configuration asks for, by lowercase folder (last mapping wins).
fn desired(c: &AppConfig) -> std::collections::BTreeMap<String, String> {
    let mut by_key: std::collections::BTreeMap<String, &FolderExeMapping> = std::collections::BTreeMap::new();
    for mapping in &c.mappings {
        by_key.insert(mapping.folder_path.to_lowercase(), mapping);
    }
    by_key
        .into_iter()
        .filter(|(_, mapping)| mapping.icon_state)
        .map(|(k, mapping)| (k, mapping.exe_path.clone()))
        .collect()
}

#[test]
fn running_the_plan_reaches_the_new_icons() {
    let old = cfg(vec![
        m("C:\\a", "a.exe", true),
        m("C:\\b", "b.exe", false),
        m("C:\\c", "c.exe", true),
        m("C:\\d", "d.exe", true),
    ]);
    let new = cfg(vec![
        m("c:\\A", "a2.exe", true),
        m("C:\\b", "b.exe", true),
        m("C:\\e", "e.exe", true),
        m("C:\\d", "d.exe", false),
        m("C:\\f", "f.exe", false),
    ]);
    let mut icons = desired(&old);
    for task in reconcile_os_state(&old, &new) {
        let key = task.folder.to_lowercase();
        match task.action {
            Action::Apply => {
                icons.insert(key, task.exe.clone());
            }
            Action::Restore => {
                icons.remove(&key);
            }
        }
    }
    assert_eq!(icons, desired(&new));
}

#[test]
fn default_config_is_empty() {
    let d = AppConfig::default();
    assert!(d.mappings.is_empty());
    assert!(d.same_as(&AppConfig::new()));
    let c = cfg(vec![m("C:\\a", "a.exe", true)]);
    assert!(c.clone() == c);
}

#[test]
fn reordered_and_recased_config_plans_nothing() {
    let old = cfg(vec![m("C:\\Apps", "a.exe", true), m("D:\\Games", "g.exe", false)]);
    let new = cfg(vec![m("d:\\GAMES", "g.exe", false), m("c:\\apps", "a.exe", true)]);
    assert!(reconcile_os_state(&old, &new).is_empty());
}

#[test]
fn respelled_in_place_with_repeated_keys_plans_nothing() {
    let old = cfg(vec![m("C:\\a", "a.exe", false), m("c:\\A", "b.exe", true), m("D:\\x", "x.exe", true)]);
    let new = cfg(vec![m("c:\\A", "a.exe", false), m("C:\\a", "b.exe", true), m("d:\\X", "x.exe", true)]);
    assert!(reconcile_os_state(&old, &new).is_empty());
}
