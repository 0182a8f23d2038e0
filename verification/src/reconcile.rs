use vstd::prelude::*;
use crate::task::{Action, IoTask, TaskView, tasks_view};
use crate::text::{unicode_lowercase, str_to_lowercase};
use crate::types::{AppConfig, FolderExeMapping, MappingView};

verus! {

/// The dictionary key of a mapping: its folder path, Unicode-lowercased.
pub open spec fn key_of(m: MappingView) -> Seq<char> {
    unicode_lowercase(m.folder_path)
}

/// The mappings keyed by lowercase folder path, inserted in order, so that of
/// several mappings with the same key the last one is kept.
pub open spec fn key_map(s: Seq<MappingView>) -> Map<Seq<char>, MappingView>
    decreases s.len(),
{
    if s.len() == 0 {
        Map::empty()
    } else {
        key_map(s.drop_last()).insert(key_of(s.last()), s.last())
    }
}

/// The task that puts a folder into the state that a mapping asks for.
pub open spec fn task_to_state(m: MappingView) -> TaskView {
    TaskView {
        action: if m.icon_state { Action::Apply } else { Action::Restore },
        folder: m.folder_path,
        exe: m.exe_path,
    }
}

/// The task, if any, that reconciling key `k` asks for, given the dictionaries
/// before and after the change: a kept key whose state or executable changed is
/// brought to its new state; an added key that is on is applied; a removed key
/// that was on is restored.
pub open spec fn task_for_key(
    om: Map<Seq<char>, MappingView>,
    nm: Map<Seq<char>, MappingView>,
    k: Seq<char>,
) -> Option<TaskView> {
    if nm.contains_key(k) {
        let n = nm[k];
        if om.contains_key(k) {
            let o = om[k];
            if o.icon_state != n.icon_state || o.exe_path != n.exe_path {
                Some(task_to_state(n))
            } else {
                None
            }
        } else if n.icon_state {
            Some(task_to_state(n))
        } else {
            None
        }
    } else if om.contains_key(k) && om[k].icon_state {
        Some(TaskView { action: Action::Restore, folder: om[k].folder_path, exe: om[k].exe_path })
    } else {
        None
    }
}

/// Index `i` of `s` holds the last mapping with its key.
pub open spec fn last_of_key(s: Seq<MappingView>, i: int) -> bool {
    forall|j: int| i < j < s.len() ==> key_of(#[trigger] s[j]) != key_of(s[i])
}

pub open spec fn opt_seq(o: Option<TaskView>) -> Seq<TaskView> {
    match o {
        Some(t) => seq![t],
        None => Seq::empty(),
    }
}

/// The tasks for the keys of the configuration after the change, in the order of
/// the last mapping of each key among its first `n` mappings.
pub open spec fn changes_plan(before: Seq<MappingView>, after: Seq<MappingView>, n: nat) -> Seq<TaskView>
    decreases n,
{
    if n == 0 || n > after.len() {
        Seq::empty()
    } else {
        let i = n - 1;
        changes_plan(before, after, (n - 1) as nat) + if last_of_key(after, i) {
            opt_seq(task_for_key(key_map(before), key_map(after), key_of(after[i])))
        } else {
            Seq::empty()
        }
    }
}

/// The tasks for the keys that only the configuration before the change has, in
/// the order of the last mapping of each key among its first `n` mappings.
pub open spec fn removals_plan(before: Seq<MappingView>, after: Seq<MappingView>, n: nat) -> Seq<TaskView>
    decreases n,
{
    if n == 0 || n > before.len() {
        Seq::empty()
    } else {
        let i = n - 1;
        removals_plan(before, after, (n - 1) as nat) + if last_of_key(before, i) && !key_map(
            after,
        ).contains_key(key_of(before[i])) {
            opt_seq(task_for_key(key_map(before), key_map(after), key_of(before[i])))
        } else {
            Seq::empty()
        }
    }
}

/// Every task needed to bring the folders from what `before` asked for to what
/// `after` asks for: first for the keys of `after`, then for the keys only
/// `before` has.
pub open spec fn reconcile_plan(before: Seq<MappingView>, after: Seq<MappingView>) -> Seq<TaskView> {
    changes_plan(before, after, after.len()) + removals_plan(before, after, before.len())
}

/// What the dictionary of a sequence holds: exactly the keys that occur, and
/// under each key the mapping at its last occurrence.
pub proof fn lemma_key_map(s: Seq<MappingView>, k: Seq<char>)
    ensures
        key_map(s).contains_key(k) <==> exists|j: int| 0 <= j < s.len() && key_of(#[trigger] s[j]) == k,
        forall|j: int|
            0 <= j < s.len() && key_of(#[trigger] s[j]) == k && last_of_key(s, j) ==> key_map(s)[k]
                == s[j],
    decreases s.len(),
{
    if s.len() > 0 {
        let t = s.drop_last();
        lemma_key_map(t, k);
        let n = s.len() - 1;
        if key_of(s.last()) == k {
            assert(key_of(s[n]) == k);
            assert forall|j: int|
                0 <= j < s.len() && key_of(#[trigger] s[j]) == k && last_of_key(s, j) implies key_map(
                s,
            )[k] == s[j] by {
                if j < n {
                    assert(key_of(s[n]) != key_of(s[j]));
                }
            }
        } else {
            assert forall|j: int| 0 <= j < t.len() && key_of(#[trigger] t[j]) == k implies key_of(
                s[j],
            ) == k by {
                assert(t[j] == s[j]);
            }
            assert forall|j: int| 0 <= j < s.len() && key_of(#[trigger] s[j]) == k implies j < t.len()
                && key_of(t[j]) == k by {
                assert(t[j] == s[j]);
            }
            assert forall|j: int|
                0 <= j < s.len() && key_of(#[trigger] s[j]) == k && last_of_key(s, j) implies key_map(
                s,
            )[k] == s[j] by {
                assert(t[j] == s[j]);
                assert(last_of_key(t, j)) by {
                    assert forall|j2: int| j < j2 < t.len() implies key_of(#[trigger] t[j2]) != key_of(
                        t[j],
                    ) by {
                        assert(t[j2] == s[j2]);
                    }
                }
            }
        }
    }
}

/// The lowercase key of every mapping, in order.
fn lowercase_keys(ms: &Vec<FolderExeMapping>) -> (keys: Vec<String>)
    ensures
        keys@.len() == ms@.len(),
        forall|i: int| 0 <= i < ms@.len() ==> #[trigger] keys@[i]@ == key_of(ms@[i]@),
{
    let mut keys: Vec<String> = Vec::new();
    let n = ms.len();
    for i in 0..n
        invariant
            n == ms@.len(),
            keys@.len() == i,
            forall|j: int| 0 <= j < i ==> #[trigger] keys@[j]@ == key_of(ms@[j]@),
    {
        keys.push(str_to_lowercase(ms[i].folder_path.as_str()));
    }
    keys
}

/// Whether no later key equals the key at `i`.
fn is_last_key(keys: &Vec<String>, i: usize) -> (res: bool)
    requires
        i < keys@.len(),
    ensures
        res == (forall|j: int| i < j < keys@.len() ==> (#[trigger] keys@[j])@ != keys@[i as int]@),
{
    let n = keys.len();
    let mut j = i + 1;
    while j < n
        invariant
            n == keys@.len(),
            i < j <= n,
            forall|j2: int| i < j2 < j ==> (#[trigger] keys@[j2])@ != keys@[i as int]@,
        decreases n - j,
    {
        if keys[j] == keys[i] {
            return false;
        }
        j = j + 1;
    }
    true
}

/// The last index holding key `k`, if any.
fn find_last_key(keys: &Vec<String>, k: &String) -> (res: Option<usize>)
    ensures
        match res {
            Some(j) => j < keys@.len() && keys@[j as int]@ == k@ && forall|j2: int|
                j < j2 < keys@.len() ==> (#[trigger] keys@[j2])@ != k@,
            None => forall|j2: int| 0 <= j2 < keys@.len() ==> (#[trigger] keys@[j2])@ != k@,
        },
{
    let mut j = keys.len();
    while j > 0
        invariant
            j <= keys@.len(),
            forall|j2: int| j <= j2 < keys@.len() ==> (#[trigger] keys@[j2])@ != k@,
        decreases j,
    {
        j = j - 1;
        if keys[j] == *k {
            return Some(j);
        }
    }
    None
}

/// A copy of the task that a mapping's own state asks for.
fn task_to_state_of(m: &FolderExeMapping) -> (t: IoTask)
    ensures
        t@ == task_to_state(m@),
{
    let action = if m.icon_state { Action::Apply } else { Action::Restore };
    IoTask::new(action, m.folder_path.clone(), m.exe_path.clone())
}

/// The tasks that bring the folders from what `old_cfg` asked for to what
/// `new_cfg` asks for, comparing mappings by lowercase folder path (of several
/// mappings with the same key, the last counts).
pub fn reconcile_os_state(old_cfg: &AppConfig, new_cfg: &AppConfig) -> (tasks: Vec<IoTask>)
    ensures
        tasks_view(tasks@) == reconcile_plan(old_cfg@, new_cfg@),
{
    let ghost before = old_cfg@;
    let ghost after = new_cfg@;
    let ghost om = key_map(before);
    let ghost nm = key_map(after);
    let old_keys = lowercase_keys(&old_cfg.mappings);
    let new_keys = lowercase_keys(&new_cfg.mappings);
    let mut tasks: Vec<IoTask> = Vec::new();
    let nn = new_cfg.mappings.len();
    let no = old_cfg.mappings.len();
    assert(forall|i: int| 0 <= i < nn ==> #[trigger] after[i] == new_cfg.mappings@[i]@);
    assert(forall|i: int| 0 <= i < no ==> #[trigger] before[i] == old_cfg.mappings@[i]@);
    for i in 0..nn
        invariant
            nn == new_cfg.mappings@.len(),
            no == old_cfg.mappings@.len(),
            before == old_cfg@,
            after == new_cfg@,
            om == key_map(before),
            nm == key_map(after),
            before.len() == no,
            after.len() == nn,
            old_keys@.len() == no,
            new_keys@.len() == nn,
            forall|j: int| 0 <= j < nn ==> #[trigger] after[j] == new_cfg.mappings@[j]@,
            forall|j: int| 0 <= j < no ==> #[trigger] before[j] == old_cfg.mappings@[j]@,
            forall|j: int| 0 <= j < no ==> #[trigger] old_keys@[j]@ == key_of(old_cfg.mappings@[j]@),
            forall|j: int| 0 <= j < nn ==> #[trigger] new_keys@[j]@ == key_of(new_cfg.mappings@[j]@),
            tasks_view(tasks@) == changes_plan(before, after, i as nat),
    {
        let ghost k = key_of(after[i as int]);
        let ghost so_far = tasks_view(tasks@);
        let last = is_last_key(&new_keys, i);
        proof {
            assert(last == last_of_key(after, i as int)) by {
                if last {
                    assert forall|j: int| i < j < after.len() implies key_of(#[trigger] after[j]) != key_of(
                        after[i as int],
                    ) by {
                        assert(new_keys@[j]@ != new_keys@[i as int]@);
                    }
                } else {
                    let j = choose|j: int| i < j < nn && (#[trigger] new_keys@[j])@ == new_keys@[i as int]@;
                    assert(key_of(after[j]) == key_of(after[i as int]));
                }
            }
        }
        if last {
            proof {
                lemma_key_map(after, k);
                lemma_key_map(before, k);
                assert(nm.contains_key(k));
                assert(nm[k] == after[i as int]);
            }
            let m = &new_cfg.mappings[i];
            match find_last_key(&old_keys, &new_keys[i]) {
                Some(j) => {
                    proof {
                        assert(key_of(before[j as int]) == k);
                        assert(last_of_key(before, j as int)) by {
                            assert forall|j2: int| j < j2 < before.len() implies key_of(#[trigger] before[j2])
                                != key_of(before[j as int]) by {
                                assert(old_keys@[j2]@ != k);
                            }
                        }
                        assert(om.contains_key(k));
                        assert(om[k] == before[j as int]);
                    }
                    let o = &old_cfg.mappings[j];
                    if o.icon_state != m.icon_state || o.exe_path != m.exe_path {
                        let t = task_to_state_of(m);
                        tasks.push(t);
                        assert(tasks_view(tasks@) =~= so_far + seq![t@]);
                    } else {
                        assert(tasks_view(tasks@) =~= so_far + Seq::<TaskView>::empty());
                    }
                },
                None => {
                    proof {
                        assert(!om.contains_key(k)) by {
                            if om.contains_key(k) {
                                let j2 = choose|j2: int| 0 <= j2 < before.len() && key_of(#[trigger] before[j2]) == k;
                                assert(old_keys@[j2]@ == k);
                            }
                        }
                    }
                    if m.icon_state {
                        let t = task_to_state_of(m);
                        tasks.push(t);
                        assert(tasks_view(tasks@) =~= so_far + seq![t@]);
                    } else {
                        assert(tasks_view(tasks@) =~= so_far + Seq::<TaskView>::empty());
                    }
                },
            }
        } else {
            assert(tasks_view(tasks@) =~= so_far + Seq::<TaskView>::empty());
        }
    }
    let ghost first = tasks_view(tasks@);
    assert(first == changes_plan(before, after, after.len()));
    for i in 0..no
        invariant
            nn == new_cfg.mappings@.len(),
            no == old_cfg.mappings@.len(),
            before == old_cfg@,
            after == new_cfg@,
            om == key_map(before),
            nm == key_map(after),
            before.len() == no,
            after.len() == nn,
            old_keys@.len() == no,
            new_keys@.len() == nn,
            forall|j: int| 0 <= j < nn ==> #[trigger] after[j] == new_cfg.mappings@[j]@,
            forall|j: int| 0 <= j < no ==> #[trigger] before[j] == old_cfg.mappings@[j]@,
            forall|j: int| 0 <= j < no ==> #[trigger] old_keys@[j]@ == key_of(old_cfg.mappings@[j]@),
            forall|j: int| 0 <= j < nn ==> #[trigger] new_keys@[j]@ == key_of(new_cfg.mappings@[j]@),
            first == changes_plan(before, after, after.len()),
            tasks_view(tasks@) == first + removals_plan(before, after, i as nat),
    {
        let ghost k = key_of(before[i as int]);
        let ghost so_far = tasks_view(tasks@);
        let ghost rp = removals_plan(before, after, i as nat);
        let last = is_last_key(&old_keys, i);
        proof {
            assert(last == last_of_key(before, i as int)) by {
                if last {
                    assert forall|j: int| i < j < before.len() implies key_of(#[trigger] before[j]) != key_of(
                        before[i as int],
                    ) by {
                        assert(old_keys@[j]@ != old_keys@[i as int]@);
                    }
                } else {
                    let j = choose|j: int| i < j < no && (#[trigger] old_keys@[j])@ == old_keys@[i as int]@;
                    assert(key_of(before[j]) == key_of(before[i as int]));
                }
            }
            lemma_key_map(after, k);
            lemma_key_map(before, k);
        }
        let mut added = false;
        if last {
            let found = find_last_key(&new_keys, &old_keys[i]);
            proof {
                assert(found.is_none() == !nm.contains_key(k)) by {
                    if nm.contains_key(k) {
                        let j2 = choose|j2: int| 0 <= j2 < after.len() && key_of(#[trigger] after[j2]) == k;
                        assert(new_keys@[j2]@ == k);
                    }
                    if let Some(j) = found {
                        assert(key_of(after[j as int]) == k);
                    }
                }
                assert(om.contains_key(k));
                assert(om[k] == before[i as int]);
            }
            if found.is_none() && old_cfg.mappings[i].icon_state {
                let o = &old_cfg.mappings[i];
                let t = IoTask::new(Action::Restore, o.folder_path.clone(), o.exe_path.clone());
                tasks.push(t);
                added = true;
                assert(tasks_view(tasks@) =~= so_far + seq![t@]);
                assert(removals_plan(before, after, (i + 1) as nat) == rp + seq![t@]);
            }
        }
        if !added {
            assert(tasks_view(tasks@) =~= so_far + Seq::<TaskView>::empty());
            assert(removals_plan(before, after, (i + 1) as nat) =~= rp + Seq::<TaskView>::empty());
        }
        assert(tasks_view(tasks@) =~= first + removals_plan(before, after, (i + 1) as nat));
    }
    tasks
}

} // verus!
