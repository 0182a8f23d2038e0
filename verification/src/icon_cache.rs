use vstd::prelude::*;

verus! {

/// What the cache knows of one executable's icon.
#[derive(Debug)]
pub enum IconState<T> {
    /// The icon is being extracted.
    Loading,
    /// Extraction finished; `None` when the executable has no usable icon.
    Ready(Option<T>),
}

/// Entries by path, at most one per path.
#[derive(Debug)]
struct PathTable<T> {
    entries: Vec<(String, IconState<T>)>,
}

/// Icons by executable path, so that each path is extracted once. `T` is the
/// handle under which the user interface keeps a loaded icon.
#[derive(Debug)]
pub struct IconCache<T> {
    table: PathTable<T>,
}

/// The cache after a lookup of `path`: an unknown non-empty path is marked loading.
pub open spec fn cache_after_get<T>(m: Map<Seq<char>, IconState<T>>, path: Seq<char>) -> Map<
    Seq<char>,
    IconState<T>,
> {
    if path.len() > 0 && !m.contains_key(path) {
        m.insert(path, IconState::Loading)
    } else {
        m
    }
}

/// A lookup of `path` starts an extraction exactly when the path is non-empty
/// and not known yet.
pub open spec fn get_starts_fetch<T>(m: Map<Seq<char>, IconState<T>>, path: Seq<char>) -> bool {
    path.len() > 0 && !m.contains_key(path)
}

/// The cache after storing extraction results, in order.
pub open spec fn cache_after_loads<T>(
    m: Map<Seq<char>, IconState<T>>,
    items: Seq<(Seq<char>, Option<T>)>,
) -> Map<Seq<char>, IconState<T>>
    decreases items.len(),
{
    if items.len() == 0 {
        m
    } else {
        let last = items.last();
        cache_after_loads(m, items.drop_last()).insert(last.0, IconState::Ready(last.1))
    }
}

pub open spec fn loads_view<T>(items: Seq<(String, Option<T>)>) -> Seq<(Seq<char>, Option<T>)> {
    items.map_values(|p: (String, Option<T>)| (p.0@, p.1))
}

impl<T> View for PathTable<T> {
    type V = Map<Seq<char>, IconState<T>>;

    closed spec fn view(&self) -> Map<Seq<char>, IconState<T>> {
        Map::new(
            |k: Seq<char>| exists|i: int| 0 <= i < self.entries@.len() && self.entries@[i].0@ == k,
            |k: Seq<char>|
                self.entries@[choose|i: int| 0 <= i < self.entries@.len() && self.entries@[i].0@ == k].1,
        )
    }
}

impl<T> PathTable<T> {
    /// No two entries share a path.
    spec fn wf(&self) -> bool {
        forall|i: int, j: int|
            0 <= i < self.entries@.len() && 0 <= j < self.entries@.len() && i != j ==> (
            #[trigger] self.entries@[i]).0@ != (#[trigger] self.entries@[j]).0@
    }
}

impl<T: Clone> PathTable<T> {
    /// An empty table.
    fn new() -> (res: PathTable<T>)
        ensures
            res.wf(),
            res@ == Map::<Seq<char>, IconState<T>>::empty(),
    {
        let res = PathTable { entries: Vec::new() };
        assert(res@ =~= Map::<Seq<char>, IconState<T>>::empty());
        res
    }

    /// The index of the entry for `path`, if there is one.
    fn find(&self, path: &String) -> (res: Option<usize>)
        requires
            self.wf(),
        ensures
            match res {
                Some(i) => i < self.entries@.len() && self.entries@[i as int].0@ == path@
                    && self@.contains_key(path@) && self@[path@] == self.entries@[i as int].1,
                None => !self@.contains_key(path@),
            },
    {
        let n = self.entries.len();
        for i in 0..n
            invariant
                n == self.entries@.len(),
                self.wf(),
                forall|j: int| 0 <= j < i ==> (#[trigger] self.entries@[j]).0@ != path@,
        {
            if self.entries[i].0 == *path {
                proof {
                    let c = choose|c: int| 0 <= c < self.entries@.len() && self.entries@[c].0@ == path@;
                    if c != i {
                        assert(self.entries@[c].0@ != self.entries@[i as int].0@);
                    }
                }
                return Some(i);
            }
        }
        None
    }

    /// Stores `state` under `path`, replacing what was there.
    fn insert(&mut self, path: String, state: IconState<T>)
        requires
            old(self).wf(),
        ensures
            final(self).wf(),
            final(self)@ == old(self)@.insert(path@, state),
    {
        let ghost key = path@;
        let ghost prior = self.entries@;
        match self.find(&path) {
            Some(i) => {
                self.entries.set(i, (path, state));
                proof {
                    assert forall|a: int, b: int|
                        0 <= a < self.entries@.len() && 0 <= b < self.entries@.len() && a != b implies (
                        #[trigger] self.entries@[a]).0@ != (#[trigger] self.entries@[b]).0@ by {
                        assert(prior[a].0@ != prior[b].0@);
                    }
                    assert forall|k: Seq<char>|
                        #[trigger] self@.contains_key(k) == old(self)@.insert(key, state).contains_key(k)
                        by {
                        if old(self)@.contains_key(k) {
                            let c = choose|c: int| 0 <= c < prior.len() && prior[c].0@ == k;
                            assert(self.entries@[c].0@ == k || c == i);
                        }
                        if self@.contains_key(k) {
                            let c = choose|c: int| 0 <= c < self.entries@.len() && self.entries@[c].0@ == k;
                            if c != i {
                                assert(prior[c].0@ == k);
                            }
                        }
                    }
                    assert forall|k: Seq<char>| #[trigger] self@.contains_key(k) implies self@[k]
                        == old(self)@.insert(key, state)[k] by {
                        let c = choose|c: int| 0 <= c < self.entries@.len() && self.entries@[c].0@ == k;
                        if k == key {
                            if c != i {
                                assert(self.entries@[c].0@ != self.entries@[i as int].0@);
                            }
                        } else {
                            assert(c != i);
                            assert(prior[c].0@ == k);
                            let c2 = choose|c2: int| 0 <= c2 < prior.len() && prior[c2].0@ == k;
                            if c2 != c {
                                assert(prior[c2].0@ != prior[c].0@);
                            }
                        }
                    }
                    assert(self@ =~= old(self)@.insert(key, state));
                }
            },
            None => {
                self.entries.push((path, state));
                proof {
                    let n = prior.len();
                    assert forall|a: int, b: int|
                        0 <= a < self.entries@.len() && 0 <= b < self.entries@.len() && a != b implies (
                        #[trigger] self.entries@[a]).0@ != (#[trigger] self.entries@[b]).0@ by {
                        if a < n && b < n {
                            assert(prior[a].0@ != prior[b].0@);
                        } else if a < n {
                            assert(prior[a].0@ != key);
                        } else {
                            assert(prior[b].0@ != key);
                        }
                    }
                    assert forall|k: Seq<char>|
                        #[trigger] self@.contains_key(k) == old(self)@.insert(key, state).contains_key(k)
                        by {
                        if old(self)@.contains_key(k) {
                            let c = choose|c: int| 0 <= c < prior.len() && prior[c].0@ == k;
                            assert(self.entries@[c].0@ == k);
                        }
                        if self@.contains_key(k) {
                            let c = choose|c: int| 0 <= c < self.entries@.len() && self.entries@[c].0@ == k;
                            if c != n {
                                assert(prior[c].0@ == k);
                            }
                        }
                        if k == key {
                            assert(self.entries@[n as int].0@ == k);
                        }
                    }
                    assert forall|k: Seq<char>| #[trigger] self@.contains_key(k) implies self@[k]
                        == old(self)@.insert(key, state)[k] by {
                        let c = choose|c: int| 0 <= c < self.entries@.len() && self.entries@[c].0@ == k;
                        if k == key {
                            if c != n {
                                assert(prior[c].0@ != key);
                            }
                        } else {
                            assert(c != n);
                            assert(prior[c].0@ == k);
                            let c2 = choose|c2: int| 0 <= c2 < prior.len() && prior[c2].0@ == k;
                            if c2 != c {
                                assert(prior[c2].0@ != prior[c].0@);
                            }
                        }
                    }
                    assert(self@ =~= old(self)@.insert(key, state));
                }
            },
        }
    }

    /// Stores finished extractions, in order.
    fn tick(&mut self, loaded: Vec<(String, Option<T>)>)
        requires
            old(self).wf(),
        ensures
            final(self).wf(),
            final(self)@ == cache_after_loads(old(self)@, loads_view(loaded@)),
    {
        let ghost items = loads_view(loaded@);
        let ghost m0 = self@;
        let mut rest = loaded;
        let ghost n = items.len();
        while rest.len() > 0
            invariant
                self.wf(),
                n == items.len(),
                rest@.len() <= n,
                loads_view(rest@) == items.subrange(n - rest@.len(), n as int),
                self@ == cache_after_loads(m0, items.subrange(0, n - rest@.len())),
            decreases rest@.len(),
        {
            let ghost done = n - rest@.len();
            let ghost before_rest = rest@;
            let (path, tex) = rest.remove(0);
            proof {
                assert(items[done] == (path@, tex)) by {
                    assert(loads_view(before_rest)[0] == items.subrange(done, n as int)[0]);
                }
                let post = items.subrange(0, done + 1);
                assert(post.drop_last() =~= items.subrange(0, done));
                assert forall|j: int| 0 <= j < rest@.len() implies #[trigger] loads_view(rest@)[j]
                    == items.subrange(done + 1, n as int)[j] by {
                    assert(rest@[j] == before_rest[j + 1]);
                    assert(loads_view(before_rest)[j + 1] == items.subrange(done, n as int)[j + 1]);
                }
                assert(loads_view(rest@) =~= items.subrange(done + 1, n as int));
            }
            self.insert(path, IconState::Ready(tex));
        }
        assert(items.subrange(0, n as int) =~= items);
    }

    /// Looks up the icon of an executable.
    fn get(&mut self, exe_path: &str) -> (res: (Option<T>, bool))
        requires
            old(self).wf(),
        ensures
            final(self).wf(),
            final(self)@ == cache_after_get(old(self)@, exe_path@),
            res.1 == get_starts_fetch(old(self)@, exe_path@),
            res.1 == (exe_path@.len() > 0 && !old(self)@.contains_key(exe_path@)),
            exe_path@.len() == 0 ==> res.0 is None,
            match res.0 {
                Some(t) => exe_path@.len() > 0 && old(self)@.contains_key(exe_path@) && (old(self)@[exe_path@] matches IconState::Ready(
                    Some(s),
                ) && cloned(s, t)),
                None => !(exe_path@.len() > 0 && old(self)@.contains_key(exe_path@) && old(
                    self,
                )@[exe_path@] matches IconState::Ready(Some(_))),
            },
    {
        if exe_path.is_empty() {
            return (None, false);
        }
        let key = exe_path.to_owned();
        match self.find(&key) {
            None => {
                self.insert(key, IconState::Loading);
                (None, true)
            },
            Some(i) => match &self.entries[i].1 {
                IconState::Loading => (None, false),
                IconState::Ready(tex) => (tex.clone(), false),
            },
        }
    }
}

impl<T> View for IconCache<T> {
    type V = Map<Seq<char>, IconState<T>>;

    closed spec fn view(&self) -> Map<Seq<char>, IconState<T>> {
        self.table@
    }
}

impl<T> IconCache<T> {
    #[verifier::type_invariant]
    spec fn paths_distinct(self) -> bool {
        self.table.wf()
    }
}

impl<T: Clone> IconCache<T> {
    /// An empty cache.
    pub fn new() -> (res: IconCache<T>)
        ensures
            res@ == Map::<Seq<char>, IconState<T>>::empty(),
    {
        IconCache { table: PathTable::new() }
    }

    /// Stores finished extractions, in order: each path now holds its result.
    pub fn tick(&mut self, loaded: Vec<(String, Option<T>)>)
        ensures
            final(self)@ == cache_after_loads(old(self)@, loads_view(loaded@)),
    {
        proof {
            use_type_invariant(&*self);
        }
        let mut table = PathTable::new();
        std::mem::swap(&mut table, &mut self.table);
        table.tick(loaded);
        self.table = table;
    }

    /// Looks up the icon of an executable. An empty path finds nothing and
    /// changes nothing. An unknown path is marked loading and the flag asks the
    /// caller to start its extraction; a path being extracted finds nothing yet;
    /// a finished path gives a clone of its icon.
    pub fn get(&mut self, exe_path: &str) -> (res: (Option<T>, bool))
        ensures
            final(self)@ == cache_after_get(old(self)@, exe_path@),
            res.1 == get_starts_fetch(old(self)@, exe_path@),
            res.1 == (exe_path@.len() > 0 && !old(self)@.contains_key(exe_path@)),
            exe_path@.len() == 0 ==> res.0 is None,
            match res.0 {
                Some(t) => exe_path@.len() > 0 && old(self)@.contains_key(exe_path@) && (old(
                    self,
                )@[exe_path@] matches IconState::Ready(Some(s)) && cloned(s, t)),
                None => !(exe_path@.len() > 0 && old(self)@.contains_key(exe_path@) && old(
                    self,
                )@[exe_path@] matches IconState::Ready(Some(_))),
            },
    {
        proof {
            use_type_invariant(&*self);
        }
        let mut table = PathTable::new();
        std::mem::swap(&mut table, &mut self.table);
        let res = table.get(exe_path);
        self.table = table;
        res
    }
}

/// One use of the cache: a lookup of a path, or a batch of finished extractions.
pub enum CacheOp<T> {
    Get(Seq<char>),
    Loads(Seq<(Seq<char>, Option<T>)>),
}

/// The cache after one use.
pub open spec fn cache_step<T>(m: Map<Seq<char>, IconState<T>>, op: CacheOp<T>) -> Map<
    Seq<char>,
    IconState<T>,
> {
    match op {
        CacheOp::Get(p) => cache_after_get(m, p),
        CacheOp::Loads(items) => cache_after_loads(m, items),
    }
}

/// The cache after a run of uses, in order.
pub open spec fn cache_run<T>(m: Map<Seq<char>, IconState<T>>, ops: Seq<CacheOp<T>>) -> Map<
    Seq<char>,
    IconState<T>,
>
    decreases ops.len(),
{
    if ops.len() == 0 {
        m
    } else {
        cache_step(cache_run(m, ops.drop_last()), ops.last())
    }
}

/// How many times a run of uses starts an extraction of `p`.
pub open spec fn fetch_count<T>(m: Map<Seq<char>, IconState<T>>, ops: Seq<CacheOp<T>>, p: Seq<char>) -> nat
    decreases ops.len(),
{
    if ops.len() == 0 {
        0
    } else {
        let before = cache_run(m, ops.drop_last());
        fetch_count(m, ops.drop_last(), p) + if ops.last() matches CacheOp::Get(q) && q == p
            && get_starts_fetch(before, p) {
            1nat
        } else {
            0nat
        }
    }
}

/// Storing extractions never forgets a path.
proof fn lemma_loads_keep_keys<T>(m: Map<Seq<char>, IconState<T>>, items: Seq<(Seq<char>, Option<T>)>, k: Seq<char>)
    requires
        m.contains_key(k),
    ensures
        cache_after_loads(m, items).contains_key(k),
    decreases items.len(),
{
    if items.len() > 0 {
        lemma_loads_keep_keys(m, items.drop_last(), k);
    }
}

/// No use of the cache forgets a path.
proof fn lemma_run_keeps_keys<T>(m: Map<Seq<char>, IconState<T>>, ops: Seq<CacheOp<T>>, k: Seq<char>)
    requires
        m.contains_key(k),
    ensures
        cache_run(m, ops).contains_key(k),
    decreases ops.len(),
{
    if ops.len() > 0 {
        lemma_run_keeps_keys(m, ops.drop_last(), k);
        if let CacheOp::Loads(items) = ops.last() {
            lemma_loads_keep_keys(cache_run(m, ops.drop_last()), items, k);
        }
    }
}

/// Looking up any non-empty path that the cache does not know starts its
/// extraction, once, and leaves the path known (loading); looking up a known
/// or empty path starts nothing.
pub proof fn law_unknown_path_is_fetched<T>(m: Map<Seq<char>, IconState<T>>, p: Seq<char>)
    ensures
        p.len() > 0 && !m.contains_key(p) ==> fetch_count(m, seq![CacheOp::Get(p)], p) == 1
            && cache_run(m, seq![CacheOp::Get(p)]).contains_key(p)
            && cache_run(m, seq![CacheOp::Get(p)])[p] == IconState::<T>::Loading,
        p.len() == 0 || m.contains_key(p) ==> fetch_count(m, seq![CacheOp::Get(p)], p) == 0
            && cache_run(m, seq![CacheOp::Get(p)]) == m,
{
    let ops = seq![CacheOp::Get(p)];
    let none = Seq::<CacheOp<T>>::empty();
    assert(ops.drop_last() =~= none);
    assert(ops.last() == CacheOp::<T>::Get(p));
    assert(cache_run(m, none) == m);
    assert(fetch_count(m, none, p) == 0);
    assert(cache_run(m, ops) == cache_after_get(m, p));
    assert(fetch_count(m, ops, p) == if get_starts_fetch(m, p) { 1nat } else { 0nat });
    if !(p.len() > 0 && !m.contains_key(p)) {
        assert(cache_after_get(m, p) =~= m);
    }
}

/// Over any run of lookups and stored extractions, an executable's icon is
/// extracted at most once, and never when the cache already knew the path: a
/// path whose extraction found no icon is not tried again.
pub proof fn law_fetch_at_most_once<T>(m: Map<Seq<char>, IconState<T>>, ops: Seq<CacheOp<T>>, p: Seq<char>)
    ensures
        fetch_count(m, ops, p) <= 1,
        m.contains_key(p) ==> fetch_count(m, ops, p) == 0,
        fetch_count(m, ops, p) == 1 ==> cache_run(m, ops).contains_key(p),
    decreases ops.len(),
{
    if ops.len() > 0 {
        let init = ops.drop_last();
        law_fetch_at_most_once(m, init, p);
        let before = cache_run(m, init);
        if m.contains_key(p) {
            lemma_run_keeps_keys(m, init, p);
        }
        match ops.last() {
            CacheOp::Get(q) => {},
            CacheOp::Loads(items) => {
                if before.contains_key(p) {
                    lemma_loads_keep_keys(before, items, p);
                }
            },
        }
    }
}

/// After storing extractions, a path holds the result of its last extraction
/// in the batch.
pub proof fn law_last_load_wins<T>(
    m: Map<Seq<char>, IconState<T>>,
    items: Seq<(Seq<char>, Option<T>)>,
    j: int,
)
    requires
        0 <= j < items.len(),
        forall|k: int| j < k < items.len() ==> (#[trigger] items[k]).0 != items[j].0,
    ensures
        cache_after_loads(m, items).contains_key(items[j].0),
        cache_after_loads(m, items)[items[j].0] == IconState::Ready(items[j].1),
    decreases items.len(),
{
    if j < items.len() - 1 {
        let init = items.drop_last();
        assert forall|k: int| j < k < init.len() implies (#[trigger] init[k]).0 != init[j].0 by {
            assert(init[k] == items[k]);
        }
        law_last_load_wins(m, init, j);
        assert(items.last() == items[items.len() - 1]);
    }
}

/// Storing extractions of other paths leaves a path's entry as it was.
proof fn lemma_loads_elsewhere<T>(m: Map<Seq<char>, IconState<T>>, items: Seq<(Seq<char>, Option<T>)>, p: Seq<char>)
    requires
        m.contains_key(p),
        forall|k: int| 0 <= k < items.len() ==> (#[trigger] items[k]).0 != p,
    ensures
        cache_after_loads(m, items).contains_key(p),
        cache_after_loads(m, items)[p] == m[p],
    decreases items.len(),
{
    if items.len() > 0 {
        let init = items.drop_last();
        assert forall|k: int| 0 <= k < init.len() implies (#[trigger] init[k]).0 != p by {
            assert(init[k] == items[k]);
        }
        lemma_loads_elsewhere(m, init, p);
        assert(items.last() == items[items.len() - 1]);
    }
}

/// A stored icon (or a stored absence of one) is what the cache holds for its
/// path, and so what lookups of the path serve, until an extraction of that
/// path is stored again; lookups of any path never change it.
pub proof fn law_stored_icon_is_served<T>(m: Map<Seq<char>, IconState<T>>, ops: Seq<CacheOp<T>>, p: Seq<char>)
    requires
        m.contains_key(p),
        forall|i: int|
            0 <= i < ops.len() ==> (#[trigger] ops[i] matches CacheOp::Loads(items) ==> forall|k: int|
                0 <= k < items.len() ==> (#[trigger] items[k]).0 != p),
    ensures
        cache_run(m, ops).contains_key(p),
        cache_run(m, ops)[p] == m[p],
    decreases ops.len(),
{
    if ops.len() > 0 {
        let init = ops.drop_last();
        assert forall|i: int| 0 <= i < init.len() implies (#[trigger] init[i] matches CacheOp::Loads(items)
            ==> forall|k: int| 0 <= k < items.len() ==> (#[trigger] items[k]).0 != p) by {
            assert(init[i] == ops[i]);
        }
        law_stored_icon_is_served(m, init, p);
        assert(ops.last() == ops[ops.len() - 1]);
        if let CacheOp::Loads(items) = ops.last() {
            lemma_loads_elsewhere(cache_run(m, init), items, p);
        }
    }
}

} // verus!
