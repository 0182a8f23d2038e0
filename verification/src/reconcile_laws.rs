use vstd::prelude::*;
use vstd::seq_lib::lemma_no_dup_in_concat;
use crate::reconcile::{changes_plan, key_map, key_of, last_of_key, lemma_key_map, opt_seq, reconcile_plan, removals_plan, task_for_key};
use crate::task::{Action, TaskView};
use crate::text::unicode_lowercase;
use crate::types::MappingView;

verus! {

/// The value a dictionary holds under `k` has key `k` and is one of the mappings.
proof fn lemma_key_map_value(s: Seq<MappingView>, k: Seq<char>)
    requires
        key_map(s).contains_key(k),
    ensures
        key_of(key_map(s)[k]) == k,
        exists|j: int| 0 <= j < s.len() && s[j] == key_map(s)[k],
    decreases s.len(),
{
    let t = s.drop_last();
    if key_of(s.last()) != k {
        lemma_key_map_value(t, k);
        let j = choose|j: int| 0 <= j < t.len() && t[j] == key_map(t)[k];
        assert(s[j] == t[j]);
    } else {
        assert(s[s.len() - 1] == s.last());
    }
}

/// A key that occurs has a last occurrence.
proof fn lemma_last_occurrence(s: Seq<MappingView>, k: Seq<char>)
    requires
        exists|j: int| 0 <= j < s.len() && key_of(#[trigger] s[j]) == k,
    ensures
        exists|j: int| 0 <= j < s.len() && key_of(#[trigger] s[j]) == k && last_of_key(s, j),
    decreases s.len(),
{
    let n = s.len() - 1;
    if key_of(s[n]) == k {
        assert(last_of_key(s, n));
    } else {
        let t = s.drop_last();
        let j0 = choose|j: int| 0 <= j < s.len() && key_of(#[trigger] s[j]) == k;
        assert(j0 < n);
        assert(key_of(t[j0]) == k);
        lemma_last_occurrence(t, k);
        let j = choose|j: int| 0 <= j < t.len() && key_of(#[trigger] t[j]) == k && last_of_key(t, j);
        assert(s[j] == t[j]);
        assert forall|j2: int| j < j2 < s.len() implies key_of(#[trigger] s[j2]) != key_of(s[j]) by {
            if j2 < n {
                assert(s[j2] == t[j2]);
            }
        }
    }
}

/// A task that a key asks for is about a folder with that key.
proof fn lemma_task_key(om: Map<Seq<char>, MappingView>, nm: Map<Seq<char>, MappingView>, k: Seq<char>, before: Seq<MappingView>, after: Seq<MappingView>)
    requires
        om == key_map(before),
        nm == key_map(after),
        task_for_key(om, nm, k) is Some,
    ensures
        unicode_lowercase(task_for_key(om, nm, k)->0.folder) == k,
{
    if nm.contains_key(k) {
        lemma_key_map_value(after, k);
    } else {
        lemma_key_map_value(before, k);
    }
}

/// Task `t` is what the last mapping with its key at index `j` of `after` asks for.
spec fn change_source(before: Seq<MappingView>, after: Seq<MappingView>, j: int, t: TaskView) -> bool {
    &&& 0 <= j < after.len()
    &&& last_of_key(after, j)
    &&& task_for_key(key_map(before), key_map(after), key_of(after[j])) == Some(t)
}

/// Task `t` is what the last mapping with its key at index `j` of `before` asks
/// for, a key that `after` no longer has.
spec fn removal_source(before: Seq<MappingView>, after: Seq<MappingView>, j: int, t: TaskView) -> bool {
    &&& 0 <= j < before.len()
    &&& last_of_key(before, j)
    &&& !key_map(after).contains_key(key_of(before[j]))
    &&& task_for_key(key_map(before), key_map(after), key_of(before[j])) == Some(t)
}

/// Task `t` comes from one of the first `n` mappings of `after`.
spec fn has_change_source(before: Seq<MappingView>, after: Seq<MappingView>, n: int, t: TaskView) -> bool {
    exists|j: int| j < n && #[trigger] change_source(before, after, j, t)
}

/// Task `t` comes from one of the first `n` mappings of `before`.
spec fn has_removal_source(before: Seq<MappingView>, after: Seq<MappingView>, n: int, t: TaskView) -> bool {
    exists|j: int| j < n && #[trigger] removal_source(before, after, j, t)
}

/// Where each task of the first part of the plan comes from.
proof fn lemma_changes_elements(before: Seq<MappingView>, after: Seq<MappingView>, n: nat)
    requires
        n <= after.len(),
    ensures
        forall|x: int|
            0 <= x < changes_plan(before, after, n).len() ==> has_change_source(
                before,
                after,
                n as int,
                #[trigger] changes_plan(before, after, n)[x],
            ),
    decreases n,
{
    if n > 0 {
        let i = n - 1;
        let prev = changes_plan(before, after, i as nat);
        let extra = if last_of_key(after, i) {
            opt_seq(task_for_key(key_map(before), key_map(after), key_of(after[i])))
        } else {
            Seq::empty()
        };
        lemma_changes_elements(before, after, i as nat);
        let cur = changes_plan(before, after, n);
        assert(cur == prev + extra);
        assert forall|x: int| 0 <= x < cur.len() implies has_change_source(
            before,
            after,
            n as int,
            #[trigger] cur[x],
        ) by {
            if x < prev.len() {
                assert(cur[x] == prev[x]);
                assert(has_change_source(before, after, i, prev[x]));
                let j = choose|j: int| j < i && #[trigger] change_source(before, after, j, prev[x]);
                assert(change_source(before, after, j, cur[x]));
            } else {
                assert(cur[x] == extra[0]);
                assert(change_source(before, after, i, cur[x]));
            }
        }
    } else {
        assert(changes_plan(before, after, n).len() == 0);
    }
}

/// No task occurs twice in that part of the plan.
proof fn lemma_changes_no_dup(before: Seq<MappingView>, after: Seq<MappingView>, n: nat)
    requires
        n <= after.len(),
    ensures
        changes_plan(before, after, n).no_duplicates(),
    decreases n,
{
    if n > 0 {
        let i = n - 1;
        let prev = changes_plan(before, after, i as nat);
        let extra = if last_of_key(after, i) {
            opt_seq(task_for_key(key_map(before), key_map(after), key_of(after[i])))
        } else {
            Seq::empty()
        };
        lemma_changes_elements(before, after, i as nat);
        lemma_changes_no_dup(before, after, i as nat);
        let cur = changes_plan(before, after, n);
        assert(cur == prev + extra);
        assert(cur.no_duplicates()) by {
            if extra.len() > 0 {
                let k = key_of(after[i]);
                lemma_task_key(key_map(before), key_map(after), k, before, after);
                assert forall|x: int| 0 <= x < prev.len() implies prev[x] != extra[0] by {
                    assert(has_change_source(before, after, i, prev[x]));
                    let j = choose|j: int| j < i && #[trigger] change_source(before, after, j, prev[x]);
                    lemma_task_key(key_map(before), key_map(after), key_of(after[j]), before, after);
                    assert(key_of(after[i]) != key_of(after[j]));
                }
                lemma_no_dup_in_concat(prev, extra);
            } else {
                assert(prev + extra =~= prev);
            }
        }
    }
}

/// Where each task of the second part of the plan comes from.
proof fn lemma_removals_elements(before: Seq<MappingView>, after: Seq<MappingView>, n: nat)
    requires
        n <= before.len(),
    ensures
        forall|x: int|
            0 <= x < removals_plan(before, after, n).len() ==> has_removal_source(
                before,
                after,
                n as int,
                #[trigger] removals_plan(before, after, n)[x],
            ),
    decreases n,
{
    if n > 0 {
        let i = n - 1;
        let prev = removals_plan(before, after, i as nat);
        let extra = if last_of_key(before, i) && !key_map(after).contains_key(key_of(before[i])) {
            opt_seq(task_for_key(key_map(before), key_map(after), key_of(before[i])))
        } else {
            Seq::empty()
        };
        lemma_removals_elements(before, after, i as nat);
        let cur = removals_plan(before, after, n);
        assert(cur == prev + extra);
        assert forall|x: int| 0 <= x < cur.len() implies has_removal_source(
            before,
            after,
            n as int,
            #[trigger] cur[x],
        ) by {
            if x < prev.len() {
                assert(cur[x] == prev[x]);
                assert(has_removal_source(before, after, i, prev[x]));
                let j = choose|j: int| j < i && #[trigger] removal_source(before, after, j, prev[x]);
                assert(removal_source(before, after, j, cur[x]));
            } else {
                assert(cur[x] == extra[0]);
                assert(removal_source(before, after, i, cur[x]));
            }
        }
    } else {
        assert(removals_plan(before, after, n).len() == 0);
    }
}

/// No task occurs twice in that part of the plan.
proof fn lemma_removals_no_dup(before: Seq<MappingView>, after: Seq<MappingView>, n: nat)
    requires
        n <= before.len(),
    ensures
        removals_plan(before, after, n).no_duplicates(),
    decreases n,
{
    if n > 0 {
        let i = n - 1;
        let prev = removals_plan(before, after, i as nat);
        let extra = if last_of_key(before, i) && !key_map(after).contains_key(key_of(before[i])) {
            opt_seq(task_for_key(key_map(before), key_map(after), key_of(before[i])))
        } else {
            Seq::empty()
        };
        lemma_removals_elements(before, after, i as nat);
        lemma_removals_no_dup(before, after, i as nat);
        let cur = removals_plan(before, after, n);
        assert(cur == prev + extra);
        assert(cur.no_duplicates()) by {
            if extra.len() > 0 {
                let k = key_of(before[i]);
                lemma_task_key(key_map(before), key_map(after), k, before, after);
                assert forall|x: int| 0 <= x < prev.len() implies prev[x] != extra[0] by {
                    assert(has_removal_source(before, after, i, prev[x]));
                    let j = choose|j: int| j < i && #[trigger] removal_source(before, after, j, prev[x]);
                    lemma_task_key(key_map(before), key_map(after), key_of(before[j]), before, after);
                    assert(key_of(before[i]) != key_of(before[j]));
                }
                lemma_no_dup_in_concat(prev, extra);
            } else {
                assert(prev + extra =~= prev);
            }
        }
    }
}

/// A last occurrence whose key asks for a task puts that task in the first part.
proof fn lemma_changes_contains(before: Seq<MappingView>, after: Seq<MappingView>, n: nat, j: int)
    requires
        0 <= j < n <= after.len(),
        last_of_key(after, j),
        task_for_key(key_map(before), key_map(after), key_of(after[j])) is Some,
    ensures
        changes_plan(before, after, n).contains(
            task_for_key(key_map(before), key_map(after), key_of(after[j]))->0,
        ),
    decreases n,
{
    let i = n - 1;
    let t = task_for_key(key_map(before), key_map(after), key_of(after[j]))->0;
    let prev = changes_plan(before, after, i as nat);
    let extra = if last_of_key(after, i) {
        opt_seq(task_for_key(key_map(before), key_map(after), key_of(after[i])))
    } else {
        Seq::empty()
    };
    assert(changes_plan(before, after, n) == prev + extra);
    if j == i {
        assert((prev + extra)[prev.len() as int] == t);
    } else {
        lemma_changes_contains(before, after, i as nat, j);
        let x = choose|x: int| 0 <= x < prev.len() && prev[x] == t;
        assert((prev + extra)[x] == t);
    }
}

/// A last occurrence of a removed key that asks for a task puts it in the second part.
proof fn lemma_removals_contains(before: Seq<MappingView>, after: Seq<MappingView>, n: nat, j: int)
    requires
        0 <= j < n <= before.len(),
        last_of_key(before, j),
        !key_map(after).contains_key(key_of(before[j])),
        task_for_key(key_map(before), key_map(after), key_of(before[j])) is Some,
    ensures
        removals_plan(before, after, n).contains(
            task_for_key(key_map(before), key_map(after), key_of(before[j]))->0,
        ),
    decreases n,
{
    let i = n - 1;
    let t = task_for_key(key_map(before), key_map(after), key_of(before[j]))->0;
    let prev = removals_plan(before, after, i as nat);
    let extra = if last_of_key(before, i) && !key_map(after).contains_key(key_of(before[i])) {
        opt_seq(task_for_key(key_map(before), key_map(after), key_of(before[i])))
    } else {
        Seq::empty()
    };
    assert(removals_plan(before, after, n) == prev + extra);
    if j == i {
        assert((prev + extra)[prev.len() as int] == t);
    } else {
        lemma_removals_contains(before, after, i as nat, j);
        let x = choose|x: int| 0 <= x < prev.len() && prev[x] == t;
        assert((prev + extra)[x] == t);
    }
}

/// Reconciling the plan of a key-by-key comparison: the plan holds exactly the
/// tasks that some key asks for, and holds each of them once.
pub proof fn law_reconcile_plan_is_per_key(before: Seq<MappingView>, after: Seq<MappingView>)
    ensures
        reconcile_plan(before, after).no_duplicates(),
        forall|t: TaskView|
            reconcile_plan(before, after).contains(t) <==> exists|k: Seq<char>|
                task_for_key(key_map(before), key_map(after), k) == Some(t),
{
    let om = key_map(before);
    let nm = key_map(after);
    let a = changes_plan(before, after, after.len());
    let b = removals_plan(before, after, before.len());
    lemma_changes_elements(before, after, after.len());
    lemma_changes_no_dup(before, after, after.len());
    lemma_removals_no_dup(before, after, before.len());
    lemma_removals_elements(before, after, before.len());
    assert forall|x: int, y: int| 0 <= x < a.len() && 0 <= y < b.len() implies a[x] != b[y] by {
        assert(has_change_source(before, after, after.len() as int, a[x]));
        let j = choose|j: int| j < after.len() && #[trigger] change_source(before, after, j, a[x]);
        assert(has_removal_source(before, after, before.len() as int, b[y]));
        let j2 = choose|j2: int| j2 < before.len() && #[trigger] removal_source(before, after, j2, b[y]);
        lemma_task_key(om, nm, key_of(after[j]), before, after);
        lemma_task_key(om, nm, key_of(before[j2]), before, after);
        lemma_key_map(after, key_of(after[j]));
    }
    lemma_no_dup_in_concat(a, b);
    assert forall|t: TaskView| reconcile_plan(before, after).contains(t) implies exists|k: Seq<char>|
        task_for_key(om, nm, k) == Some(t) by {
        let x = choose|x: int| 0 <= x < (a + b).len() && (a + b)[x] == t;
        if x < a.len() {
            assert(a[x] == t);
            assert(has_change_source(before, after, after.len() as int, a[x]));
        let j = choose|j: int| j < after.len() && #[trigger] change_source(before, after, j, a[x]);
        } else {
            assert(b[x - a.len()] == t);
            assert(has_removal_source(before, after, before.len() as int, b[x - a.len()]));
            let j2 = choose|j2: int| j2 < before.len() && #[trigger] removal_source(before, after, j2, b[x - a.len()]);
        }
    }
    assert forall|t: TaskView|
        (exists|k: Seq<char>| task_for_key(om, nm, k) == Some(t)) implies reconcile_plan(
        before,
        after,
    ).contains(t) by {
        let k = choose|k: Seq<char>| task_for_key(om, nm, k) == Some(t);
        lemma_key_map(after, k);
        lemma_key_map(before, k);
        if nm.contains_key(k) {
            lemma_last_occurrence(after, k);
            let j = choose|j: int| 0 <= j < after.len() && key_of(#[trigger] after[j]) == k && last_of_key(after, j);
            lemma_changes_contains(before, after, after.len(), j);
            let x = choose|x: int| 0 <= x < a.len() && a[x] == t;
            assert((a + b)[x] == t);
        } else {
            lemma_last_occurrence(before, k);
            let j = choose|j: int| 0 <= j < before.len() && key_of(#[trigger] before[j]) == k && last_of_key(before, j);
            lemma_removals_contains(before, after, before.len(), j);
            let x = choose|x: int| 0 <= x < b.len() && b[x] == t;
            assert((a + b)[a.len() + x] == t);
        }
    }
}

/// Reconciling a configuration with itself asks for no task: the state that was
/// applied is the state that is wanted.
pub proof fn law_reconcile_same_config_is_quiet(c: Seq<MappingView>)
    ensures
        reconcile_plan(c, c) == Seq::<TaskView>::empty(),
{
    law_reconcile_plan_is_per_key(c, c);
    assert forall|k: Seq<char>| task_for_key(key_map(c), key_map(c), k) is None by {}
    if reconcile_plan(c, c).len() > 0 {
        assert(reconcile_plan(c, c).contains(reconcile_plan(c, c)[0]));
    }
}

/// Two mappings ask for the same icon on the same folder key.
pub open spec fn same_entry(a: MappingView, b: MappingView) -> bool {
    key_of(a) == key_of(b) && a.exe_path == b.exe_path && a.icon_state == b.icon_state
}

/// Some mapping of `s` is the same entry as `m`.
pub open spec fn has_same_entry(m: MappingView, s: Seq<MappingView>) -> bool {
    exists|j: int| 0 <= j < s.len() && same_entry(m, #[trigger] s[j])
}

/// Reconciling against a configuration that holds the same entries, perhaps
/// in another order and with folders spelled differently but with the same
/// lowercase key, asks for no task (the old mappings having pairwise different
/// keys).
pub proof fn law_reconcile_matching_entries_is_quiet(before: Seq<MappingView>, after: Seq<MappingView>)
    requires
        forall|i: int, j: int|
            0 <= i < before.len() && 0 <= j < before.len() && i != j ==> key_of(#[trigger] before[i])
                != key_of(#[trigger] before[j]),
        forall|i: int| 0 <= i < after.len() ==> #[trigger] has_same_entry(after[i], before),
        forall|j: int| 0 <= j < before.len() ==> #[trigger] has_same_entry(before[j], after),
    ensures
        reconcile_plan(before, after) == Seq::<TaskView>::empty(),
{
    let om = key_map(before);
    let nm = key_map(after);
    law_reconcile_plan_is_per_key(before, after);
    assert forall|k: Seq<char>| task_for_key(om, nm, k) is None by {
        lemma_key_map(after, k);
        lemma_key_map(before, k);
        if nm.contains_key(k) {
            lemma_last_occurrence(after, k);
            let i = choose|i: int| 0 <= i < after.len() && key_of(#[trigger] after[i]) == k && last_of_key(after, i);
            assert(nm[k] == after[i]);
            assert(has_same_entry(after[i], before));
            let j = choose|j: int| 0 <= j < before.len() && same_entry(after[i], #[trigger] before[j]);
            assert(key_of(before[j]) == k);
            assert(last_of_key(before, j)) by {
                assert forall|j2: int| j < j2 < before.len() implies key_of(#[trigger] before[j2]) != key_of(before[j]) by {}
            }
            assert(om[k] == before[j]);
        } else if om.contains_key(k) {
            let j = choose|j: int| 0 <= j < before.len() && key_of(#[trigger] before[j]) == k;
            assert(has_same_entry(before[j], after));
            let i = choose|i: int| 0 <= i < after.len() && same_entry(before[j], #[trigger] after[i]);
            assert(key_of(after[i]) == k);
        }
    }
    if reconcile_plan(before, after).len() > 0 {
        assert(reconcile_plan(before, after).contains(reconcile_plan(before, after)[0]));
    }
}

/// Reconciling against a configuration that changes, mapping by mapping, only
/// the spelling of folders (keeping each lowercase key), asks for no task,
/// also when several mappings share a key.
pub proof fn law_reconcile_respelled_in_place_is_quiet(before: Seq<MappingView>, after: Seq<MappingView>)
    requires
        after.len() == before.len(),
        forall|i: int| 0 <= i < after.len() ==> #[trigger] same_entry(after[i], before[i]),
    ensures
        reconcile_plan(before, after) == Seq::<TaskView>::empty(),
{
    let om = key_map(before);
    let nm = key_map(after);
    law_reconcile_plan_is_per_key(before, after);
    assert forall|i: int| 0 <= i < after.len() implies key_of(#[trigger] after[i]) == key_of(before[i]) by {
        assert(same_entry(after[i], before[i]));
    }
    assert forall|k: Seq<char>| task_for_key(om, nm, k) is None by {
        lemma_key_map(after, k);
        lemma_key_map(before, k);
        if nm.contains_key(k) {
            lemma_last_occurrence(after, k);
            let i = choose|i: int| 0 <= i < after.len() && key_of(#[trigger] after[i]) == k && last_of_key(after, i);
            assert(key_of(before[i]) == k);
            assert(last_of_key(before, i)) by {
                assert forall|j: int| i < j < before.len() implies key_of(#[trigger] before[j]) != key_of(before[i]) by {
                    assert(key_of(after[j]) == key_of(before[j]));
                }
            }
            assert(nm[k] == after[i]);
            assert(om[k] == before[i]);
            assert(same_entry(after[i], before[i]));
        } else if om.contains_key(k) {
            let j = choose|j: int| 0 <= j < before.len() && key_of(#[trigger] before[j]) == k;
            assert(key_of(after[j]) == k);
        }
    }
    if reconcile_plan(before, after).len() > 0 {
        assert(reconcile_plan(before, after).contains(reconcile_plan(before, after)[0]));
    }
}

/// What each planned task is about: an apply is for a mapping of the new
/// configuration that is on; a restore is for a mapping of the new configuration
/// that is off, or for a mapping of the old configuration that was on and whose
/// folder the new configuration no longer has.
pub proof fn law_reconcile_targets(before: Seq<MappingView>, after: Seq<MappingView>)
    ensures
        forall|t: TaskView|
            #![trigger reconcile_plan(before, after).contains(t)]
            reconcile_plan(before, after).contains(t) ==> {
                ||| t.action == Action::Apply && exists|i: int|
                    0 <= i < after.len() && after[i].folder_path == t.folder && after[i].exe_path == t.exe
                        && after[i].icon_state
                ||| t.action == Action::Restore && exists|i: int|
                    0 <= i < after.len() && after[i].folder_path == t.folder && after[i].exe_path == t.exe
                        && !after[i].icon_state
                ||| t.action == Action::Restore && exists|i: int|
                    0 <= i < before.len() && before[i].folder_path == t.folder && before[i].exe_path == t.exe
                        && before[i].icon_state && !key_map(after).contains_key(key_of(before[i]))
            },
{
    let om = key_map(before);
    let nm = key_map(after);
    law_reconcile_plan_is_per_key(before, after);
    assert forall|t: TaskView| reconcile_plan(before, after).contains(t) implies {
        ||| t.action == Action::Apply && exists|i: int|
            0 <= i < after.len() && after[i].folder_path == t.folder && after[i].exe_path == t.exe
                && after[i].icon_state
        ||| t.action == Action::Restore && exists|i: int|
            0 <= i < after.len() && after[i].folder_path == t.folder && after[i].exe_path == t.exe
                && !after[i].icon_state
        ||| t.action == Action::Restore && exists|i: int|
            0 <= i < before.len() && before[i].folder_path == t.folder && before[i].exe_path == t.exe
                && before[i].icon_state && !key_map(after).contains_key(key_of(before[i]))
    } by {
        let k = choose|k: Seq<char>| task_for_key(om, nm, k) == Some(t);
        if nm.contains_key(k) {
            lemma_key_map_value(after, k);
            let i = choose|i: int| 0 <= i < after.len() && after[i] == nm[k];
        } else {
            lemma_key_map_value(before, k);
            let i = choose|i: int| 0 <= i < before.len() && before[i] == om[k];
            assert(key_of(before[i]) == k);
        }
    }
}


/// Which folders show a custom icon, and from which executable: folders are
/// identified by their lowercase path.
pub type IconMap = Map<Seq<char>, Seq<char>>;

/// The icons that a configuration asks for: every key whose last mapping is on,
/// with that mapping's executable.
pub open spec fn desired_icons(cfg: Seq<MappingView>) -> IconMap {
    Map::new(
        |k: Seq<char>| key_map(cfg).contains_key(k) && key_map(cfg)[k].icon_state,
        |k: Seq<char>| key_map(cfg)[k].exe_path,
    )
}

/// The icons after one operation succeeded: an apply sets the folder's icon,
/// a restore takes it away.
pub open spec fn apply_task(icons: IconMap, t: TaskView) -> IconMap {
    let k = unicode_lowercase(t.folder);
    match t.action {
        Action::Apply => icons.insert(k, t.exe),
        Action::Restore => icons.remove(k),
    }
}

/// The icons after all operations succeeded, in order.
pub open spec fn apply_tasks(icons: IconMap, ts: Seq<TaskView>) -> IconMap
    decreases ts.len(),
{
    if ts.len() == 0 {
        icons
    } else {
        apply_task(apply_tasks(icons, ts.drop_last()), ts.last())
    }
}

/// The icons at `k` are what task `t` leaves there.
spec fn left_by(icons: IconMap, t: TaskView, k: Seq<char>) -> bool {
    match t.action {
        Action::Apply => icons.contains_key(k) && icons[k] == t.exe,
        Action::Restore => !icons.contains_key(k),
    }
}

/// At a key, running operations leaves what the last operation on that key
/// left, or what was there when no operation touches it.
proof fn lemma_apply_tasks_at(icons: IconMap, ts: Seq<TaskView>, k: Seq<char>)
    ensures
        (forall|i: int| 0 <= i < ts.len() ==> unicode_lowercase(#[trigger] ts[i].folder) != k) ==> (
        apply_tasks(icons, ts).contains_key(k) == icons.contains_key(k) && (icons.contains_key(k)
            ==> apply_tasks(icons, ts)[k] == icons[k])),
        forall|i: int|
            0 <= i < ts.len() && unicode_lowercase(#[trigger] ts[i].folder) == k && (forall|j: int|
                i < j < ts.len() ==> unicode_lowercase(ts[j].folder) != k) ==> left_by(
                apply_tasks(icons, ts),
                ts[i],
                k,
            ),
    decreases ts.len(),
{
    if ts.len() > 0 {
        let init = ts.drop_last();
        let n = ts.len() - 1;
        lemma_apply_tasks_at(icons, init, k);
        if forall|i: int| 0 <= i < ts.len() ==> unicode_lowercase(#[trigger] ts[i].folder) != k {
            assert forall|i: int| 0 <= i < init.len() implies unicode_lowercase(#[trigger] init[i].folder)
                != k by {
                assert(init[i] == ts[i]);
            }
            assert(unicode_lowercase(ts[n].folder) != k);
        }
        assert forall|i: int|
            0 <= i < ts.len() && unicode_lowercase(#[trigger] ts[i].folder) == k && (forall|j: int|
                i < j < ts.len() ==> unicode_lowercase(ts[j].folder) != k) implies left_by(
            apply_tasks(icons, ts),
            ts[i],
            k,
        ) by {
            if i < n {
                assert(unicode_lowercase(ts[n].folder) != k);
                assert(init[i] == ts[i]);
                assert forall|j: int| i < j < init.len() implies unicode_lowercase(init[j].folder) != k by {
                    assert(init[j] == ts[j]);
                }
            }
        }
    }
}

/// When every operation of a reconciliation succeeds, the folders that showed
/// the icons the old configuration asked for show the icons the new
/// configuration asks for.
pub proof fn law_reconcile_reaches_new_icons(before: Seq<MappingView>, after: Seq<MappingView>)
    ensures
        apply_tasks(desired_icons(before), reconcile_plan(before, after)) == desired_icons(after),
{
    let om = key_map(before);
    let nm = key_map(after);
    let plan = reconcile_plan(before, after);
    let start = desired_icons(before);
    let end = apply_tasks(start, plan);
    law_reconcile_plan_is_per_key(before, after);
    assert forall|k: Seq<char>|
        #[trigger] end.contains_key(k) == desired_icons(after).contains_key(k) && (end.contains_key(k)
            ==> end[k] == desired_icons(after)[k]) by {
        lemma_apply_tasks_at(start, plan, k);
        match task_for_key(om, nm, k) {
            Some(t) => {
                assert(plan.contains(t));
                let i = choose|i: int| 0 <= i < plan.len() && plan[i] == t;
                lemma_task_key(om, nm, k, before, after);
                assert forall|j: int| i < j < plan.len() implies unicode_lowercase(plan[j].folder) != k by {
                    if unicode_lowercase(plan[j].folder) == k {
                        assert(plan.contains(plan[j]));
                        let k2 = choose|k2: Seq<char>| task_for_key(om, nm, k2) == Some(plan[j]);
                        lemma_task_key(om, nm, k2, before, after);
                        assert(plan[j] == t);
                    }
                }
                assert(left_by(end, t, k));
            },
            None => {
                assert forall|i: int| 0 <= i < plan.len() implies unicode_lowercase(#[trigger] plan[i].folder)
                    != k by {
                    assert(plan.contains(plan[i]));
                    let k2 = choose|k2: Seq<char>| task_for_key(om, nm, k2) == Some(plan[i]);
                    lemma_task_key(om, nm, k2, before, after);
                }
            },
        }
    }
    assert(end =~= desired_icons(after));
}

} // verus!
