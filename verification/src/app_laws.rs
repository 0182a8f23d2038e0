use vstd::prelude::*;
use crate::app_state::{
    config_after_result, has_match, results_change_config, fold_results, fold_update_tasks, fold_updates, is_first_match, StateView,
};
use crate::task::{TaskResultView, TaskView};
use crate::text::eq_ignore_ascii_case;
use crate::types::MappingView;

verus! {

/// Of several configurations read from disk in one round, the last one is the
/// configuration in memory afterwards.
pub proof fn law_last_update_wins(st: StateView, us: Seq<Seq<MappingView>>)
    requires
        us.len() > 0,
    ensures
        fold_updates(st, us).config == us.last(),
{
}

/// Reading back the configuration that is already in memory (such as the one
/// just saved) changes nothing and asks for no operation, however often it
/// happens: saving and watching the file cannot feed each other.
pub proof fn law_echoed_config_is_quiet(st: StateView, us: Seq<Seq<MappingView>>)
    requires
        forall|i: int| 0 <= i < us.len() ==> #[trigger] us[i] == st.config,
    ensures
        fold_updates(st, us) == st,
        fold_update_tasks(st, us) == Seq::<TaskView>::empty(),
    decreases us.len(),
{
    if us.len() > 0 {
        let init = us.drop_last();
        assert forall|i: int| 0 <= i < init.len() implies #[trigger] init[i] == st.config by {
            assert(init[i] == us[i]);
        }
        law_echoed_config_is_quiet(st, init);
        assert(us.last() == us[us.len() - 1]);
        assert(fold_update_tasks(st, us) =~= Seq::<TaskView>::empty() + Seq::<TaskView>::empty());
    }
}

/// A folder that some mapping matches has a first matching mapping.
pub proof fn lemma_first_match_exists(cfg: Seq<MappingView>, folder: Seq<char>, n: int)
    requires
        0 <= n <= cfg.len(),
        exists|i: int| 0 <= i < n && eq_ignore_ascii_case(#[trigger] cfg[i].folder_path, folder),
    ensures
        exists|i: int| is_first_match(cfg, folder, i),
    decreases n,
{
    if exists|i: int| 0 <= i < n - 1 && eq_ignore_ascii_case(#[trigger] cfg[i].folder_path, folder) {
        lemma_first_match_exists(cfg, folder, n - 1);
    } else {
        assert(is_first_match(cfg, folder, n - 1));
    }
}

/// A report of a finished operation only ever changes whether a mapping is
/// applied: the mappings, their folders and executables stay as they were.
pub proof fn law_results_keep_mappings(st: StateView, rs: Seq<TaskResultView>)
    ensures
        fold_results(st, rs).config.len() == st.config.len(),
        forall|i: int|
            0 <= i < st.config.len() ==> (#[trigger] fold_results(st, rs).config[i]).folder_path
                == st.config[i].folder_path && fold_results(st, rs).config[i].exe_path
                == st.config[i].exe_path,
    decreases rs.len(),
{
    if rs.len() > 0 {
        let init = rs.drop_last();
        law_results_keep_mappings(st, init);
        let mid = fold_results(st, init);
        let r = rs.last();
        let c = config_after_result(mid.config, r);
        if r.success && has_match(mid.config, r.folder) {
            lemma_first_match_exists(mid.config, r.folder, mid.config.len() as int);
        }
        assert(c.len() == mid.config.len());
        assert forall|i: int| 0 <= i < st.config.len() implies (#[trigger] c[i]).folder_path
            == st.config[i].folder_path && c[i].exe_path == st.config[i].exe_path by {
            assert(mid.config[i].folder_path == st.config[i].folder_path);
        }
    }
}

/// A successful report for a folder that some mapping holds marks the first
/// such mapping applied after an apply and not applied after a restore.
pub proof fn law_success_marks_first_match(cfg: Seq<MappingView>, r: TaskResultView, i: int)
    requires
        r.success,
        is_first_match(cfg, r.folder, i),
    ensures
        config_after_result(cfg, r)[i].icon_state == (r.action == crate::task::Action::Apply),
        forall|j: int| 0 <= j < cfg.len() && j != i ==> #[trigger] config_after_result(cfg, r)[j] == cfg[j],
{
    let c = choose|c: int| is_first_match(cfg, r.folder, c);
    if c < i {
        assert(!crate::text::eq_ignore_ascii_case(cfg[c].folder_path, r.folder));
    }
    if i < c {
        assert(!crate::text::eq_ignore_ascii_case(cfg[i].folder_path, r.folder));
    }
}

/// Some successful report, of an apply or of a restore, names a folder that
/// a mapping holds (ignoring ASCII case).
pub open spec fn some_report_matches(cfg: Seq<MappingView>, rs: Seq<TaskResultView>) -> bool {
    exists|i: int, j: int|
        0 <= i < rs.len() && 0 <= j < cfg.len() && rs[i].success && #[trigger] eq_ignore_ascii_case(
            cfg[j].folder_path,
            rs[i].folder,
        )
}

/// A round says that the configuration changed (and must be saved) exactly
/// when some successful report, whether of an apply or of a restore, names the
/// folder of a mapping.
pub proof fn law_round_changes_config_iff_a_report_matches(st: StateView, rs: Seq<TaskResultView>)
    ensures
        results_change_config(st, rs) == some_report_matches(st.config, rs),
    decreases rs.len(),
{
    if rs.len() > 0 {
        let init = rs.drop_last();
        let r = rs.last();
        law_round_changes_config_iff_a_report_matches(st, init);
        law_results_keep_mappings(st, init);
        let mid = fold_results(st, init).config;
        assert(has_match(mid, r.folder) == exists|j: int|
            0 <= j < st.config.len() && #[trigger] eq_ignore_ascii_case(st.config[j].folder_path, r.folder)) by {
            if has_match(mid, r.folder) {
                let j = choose|j: int| 0 <= j < mid.len() && eq_ignore_ascii_case(#[trigger] mid[j].folder_path, r.folder);
                assert(eq_ignore_ascii_case(st.config[j].folder_path, r.folder));
            }
            if exists|j: int| 0 <= j < st.config.len() && #[trigger] eq_ignore_ascii_case(st.config[j].folder_path, r.folder) {
                let j = choose|j: int| 0 <= j < st.config.len() && #[trigger] eq_ignore_ascii_case(st.config[j].folder_path, r.folder);
                assert(mid[j].folder_path == st.config[j].folder_path);
            }
        }
        if some_report_matches(st.config, init) {
            let (i, j) = choose|i: int, j: int|
                0 <= i < init.len() && 0 <= j < st.config.len() && init[i].success && #[trigger] eq_ignore_ascii_case(
                    st.config[j].folder_path,
                    init[i].folder,
                );
            assert(rs[i] == init[i]);
        }
        if some_report_matches(st.config, rs) {
            let (i, j) = choose|i: int, j: int|
                0 <= i < rs.len() && 0 <= j < st.config.len() && rs[i].success && #[trigger] eq_ignore_ascii_case(
                    st.config[j].folder_path,
                    rs[i].folder,
                );
            if i < init.len() {
                assert(rs[i] == init[i]);
            }
        }
    }
}

/// A single successful report of an apply or of a restore whose folder a
/// mapping holds makes the round report a change; an unsuccessful one never does.
pub proof fn law_one_report_changes_config(st: StateView, r: TaskResultView)
    ensures
        results_change_config(st, seq![r]) == (r.success && exists|j: int|
            0 <= j < st.config.len() && #[trigger] eq_ignore_ascii_case(st.config[j].folder_path, r.folder)),
{
    law_round_changes_config_iff_a_report_matches(st, seq![r]);
    if r.success && exists|j: int| 0 <= j < st.config.len() && #[trigger] eq_ignore_ascii_case(st.config[j].folder_path, r.folder) {
        let j = choose|j: int| 0 <= j < st.config.len() && #[trigger] eq_ignore_ascii_case(st.config[j].folder_path, r.folder);
        assert(seq![r][0] == r);
        assert(some_report_matches(st.config, seq![r]));
    }
}

} // verus!
